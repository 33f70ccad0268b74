//! Roots of unity, and with them number theoretic transforms, for the large prime
//! fields and the large residue-number-system rings.
use crate::arith::bigint::{BigUint, limbs_value};
use crate::arith::large_modulus::{CanonicalValue, LargeCanonicalRing};
use crate::arith::large_prime::{LargePrimeField, LargePrimeProfile};
use crate::arith::large_rns::{LargeRns, LargeRnsProfile};
use crate::arith::ntt::{
    NTTRing, NttError, NttPlan, capped_pow2, capped_two_pow, is_pow2, is_ring_plan,
    lemma_large_two_pow_value, lemma_pow2_log2, log2, log2_exec, root_inverse, scalar_ntt_forward_with_plan,
    scalar_ntt_inverse_with_plan, two_adic_root, two_adic_root_candidate, two_pow_elem,
    validate_power_of_two_len,
};
use crate::arith::prime_ntt::lemma_pow2_not_multiple;
use crate::arith::ring::{Ring, pow_spec, ring_pow};
use crate::arith::rns::{gcd, gcd_spec, mod_inv_u64};
use vstd::prelude::*;

verus! {

impl<P: LargePrimeProfile<LIMBS>, const LIMBS: usize> LargePrimeField<P, LIMBS> {
    /// The profile's root of unity of order `2^s`, as an element: the element whose
    /// canonical value is the profile's constant reduced modulo `q`.
    pub closed spec fn two_adic_root_spec() -> Self {
        choose|g: Self| g.wf() && g.canonical_value() == limbs_value(P::TWO_ADIC_ROOT@) % Self::canonical_modulus()
    }

    /// The element with the profile's root as canonical value is the root.
    proof fn lemma_two_adic_root_spec(g: Self)
        requires
            Self::params_ok(),
            g.wf(),
            g.canonical_value() == limbs_value(P::TWO_ADIC_ROOT@) % Self::canonical_modulus(),
        ensures
            g == Self::two_adic_root_spec(),
    {
        let gs = Self::two_adic_root_spec();
        Self::lemma_canonical(g, gs);
    }

    /// `-1` differs from `1`, as the modulus exceeds `2`.
    proof fn lemma_minus_one_not_one()
        requires
            Self::params_ok(),
        ensures
            Self::neg_spec(Self::one_spec()) != Self::one_spec(),
    {
        Self::lemma_canonical_identities();
        Self::lemma_identities_wf();
        Self::lemma_canonical(Self::one_spec(), Self::one_spec());
        let q = Self::canonical_modulus();
        vstd::arithmetic::div_mod::lemma_small_mod((q - 1) as nat, q);
    }
}

impl<P: LargePrimeProfile<LIMBS>, const LIMBS: usize> NTTRing for LargePrimeField<P, LIMBS> {
    /// `1` for `n = 1`; otherwise `g^(2^s / n)` for the profile's root `g` of order
    /// `2^s`, when `n` is a power of two up to `2^s` and that power is a primitive
    /// `n`-th root of unity.
    open spec fn root_spec(n: nat) -> Option<Self> {
        two_adic_root_candidate(Self::two_adic_root_spec(), capped_pow2(P::TWO_ADICITY as nat), n)
    }

    fn root_of_unity(n: usize) -> (r: Option<Self>) {
        let c = BigUint { limbs: P::TWO_ADIC_ROOT };
        let g = <Self as LargeCanonicalRing>::from_canonical(&c);
        proof {
            let q = Self::canonical_modulus();
            assert(c.canonical_nat() == c.value());
            assert(c.value() == limbs_value(P::TWO_ADIC_ROOT@));
            assert(g.wf());
            assert(g.canonical_value() == limbs_value(P::TWO_ADIC_ROOT@) % q);
            Self::lemma_two_adic_root_spec(g);
            Self::lemma_minus_one_not_one();
        }
        let max = Self::max_ntt_size_capped();
        two_adic_root(&g, max, n)
    }

    fn inv_root_of_unity(n: usize) -> (r: Option<Self>) {
        match Self::root_of_unity(n) {
            Some(w) => {
                proof {
                    // No root of unity is given for length zero.
                    assert(n >= 1);
                }
                Some(root_inverse(&w, n))
            },
            None => None,
        }
    }

    /// `n^{-1}`: `None` for `n = 0` or a multiple of `q`.
    fn inverse_ntt_scale(n: usize) -> (r: Option<Self>)
        ensures
            r is Some <==> (n as nat) % Self::canonical_modulus() != 0,
            r matches Some(w) ==> (w.canonical_value() * n) as nat % Self::canonical_modulus() == 1,
    {
        proof {
            Self::lemma_canonical_identities();
            Self::lemma_identities_wf();
        }
        if n == 0 {
            proof {
                vstd::arithmetic::div_mod::lemma_small_mod(0, Self::canonical_modulus());
            }
            return None;
        }
        let v = Self::from_small_u64(n as u64);
        proof {
            Self::lemma_canonical(v, Self::zero_spec());
        }
        if v.is_zero() {
            proof {
                if is_pow2(n as nat) {
                    Self::lemma_canonical(v, v);
                    lemma_pow2_not_multiple(Self::canonical_modulus(), n as nat);
                }
            }
            return None;
        }
        let w = v.inv();
        proof {
            Self::lemma_mul_laws(v, w, w);
            Self::lemma_canonical(v, w);
            Self::lemma_canonical(Self::mul_spec(v, w), Self::one_spec());
            vstd::arithmetic::div_mod::lemma_small_mod(1, Self::canonical_modulus());
            vstd::arithmetic::div_mod::lemma_mul_mod_noop_left(n as int, w.canonical_value() as int, Self::canonical_modulus() as int);
            assert(w.canonical_value() * n == n * w.canonical_value()) by (nonlinear_arith);
            if is_pow2(n as nat) {
                let l = log2(n as nat);
                let t = two_pow_elem::<Self>(l);
                lemma_pow2_log2(n as nat);
                lemma_large_two_pow_value::<Self>(l);
                Self::lemma_canonical(v, t);
            }
        }
        Some(w)
    }

    fn max_ntt_size() -> (m: usize) {
        Self::max_ntt_size_capped()
    }

    fn ntt_forward_in_place(coeffs: &mut [Self]) -> (r: Result<(), NttError>) {
        let n = coeffs.len();
        let root = Self::root_of_unity(n);
        let inv_root = Self::inv_root_of_unity(n);
        let scale = Self::inverse_ntt_scale(n);
        proof {
            if is_pow2(n as nat) && Self::root_spec(n as nat) is Some {
                assert(crate::arith::ntt::roots_ok(n as nat, root, inv_root, scale));
            }
        }
        let plan = match NttPlan::from_roots(n, root, inv_root, scale) {
            Ok(p) => p,
            Err(e) => return Err(e),
        };
        let r = scalar_ntt_forward_with_plan(coeffs, &plan);
        proof {
            assert(is_ring_plan(plan, old(coeffs)@.len(), Self::root_spec(old(coeffs)@.len())) && final(coeffs)@
                == plan.forward_spec(old(coeffs)@));
        }
        r
    }

    fn ntt_forward_with_plan(coeffs: &mut [Self], plan: &NttPlan<Self>) -> (r: Result<(), NttError>) {
        scalar_ntt_forward_with_plan(coeffs, plan)
    }

    fn ntt_inverse_in_place(evals: &mut [Self]) -> (r: Result<(), NttError>) {
        let n = evals.len();
        let root = Self::root_of_unity(n);
        let inv_root = Self::inv_root_of_unity(n);
        let scale = Self::inverse_ntt_scale(n);
        proof {
            if is_pow2(n as nat) && Self::root_spec(n as nat) is Some {
                assert(crate::arith::ntt::roots_ok(n as nat, root, inv_root, scale));
            }
        }
        let plan = match NttPlan::from_roots(n, root, inv_root, scale) {
            Ok(p) => p,
            Err(e) => return Err(e),
        };
        let r = scalar_ntt_inverse_with_plan(evals, &plan);
        proof {
            assert(is_ring_plan(plan, old(evals)@.len(), Self::root_spec(old(evals)@.len())) && final(evals)@
                == plan.inverse_spec(old(evals)@));
        }
        r
    }

    fn ntt_inverse_with_plan(evals: &mut [Self], plan: &NttPlan<Self>) -> (r: Result<(), NttError>) {
        scalar_ntt_inverse_with_plan(evals, plan)
    }
}

impl<P: LargePrimeProfile<LIMBS>, const LIMBS: usize> LargePrimeField<P, LIMBS> {
    /// `2^s` for the profile's two-adicity `s`, or the largest power of two in
    /// `usize` when that is smaller.
    fn max_ntt_size_capped() -> (m: usize)
        ensures
            m == capped_pow2(P::TWO_ADICITY as nat),
            is_pow2(m as nat),
    {
        capped_two_pow(P::TWO_ADICITY)
    }
}


/// `2^k` is well formed.
proof fn lemma_two_pow_wf<R: Ring>(k: nat)
    requires
        R::params_ok(),
    ensures
        two_pow_elem::<R>(k).wf(),
    decreases k,
{
    R::lemma_identities_wf();
    if k > 0 {
        lemma_two_pow_wf::<R>((k - 1) as nat);
        let t = two_pow_elem::<R>((k - 1) as nat);
        R::lemma_closed(t, t);
    }
}

/// A half `h` (with `2 h = 1`) raised to `l` inverts `2^l`.
proof fn lemma_half_pow_inverse<R: Ring>(h: R, l: nat)
    requires
        R::params_ok(),
        h.wf(),
        R::mul_spec(h, R::add_spec(R::one_spec(), R::one_spec())) == R::one_spec(),
    ensures
        R::mul_spec(pow_spec(h, l), two_pow_elem::<R>(l)) == R::one_spec(),
    decreases l,
{
    R::lemma_identities_wf();
    let one = R::one_spec();
    if l == 0 {
        R::lemma_mul_laws(one, one, one);
    } else {
        let l1 = (l - 1) as nat;
        lemma_half_pow_inverse(h, l1);
        let p = pow_spec(h, l1);
        let t = two_pow_elem::<R>(l1);
        let two = R::add_spec(one, one);
        crate::arith::ring::lemma_pow_wf(h, l1);
        lemma_two_pow_wf::<R>(l1);
        R::lemma_closed(one, one);
        R::lemma_closed(t, two);
        R::lemma_closed(h, t);
        R::lemma_closed(h, two);
        R::lemma_closed(p, h);
        R::lemma_closed(h, R::mul_spec(t, two));
        // 2^l = t + t = t * 2
        R::lemma_mul_laws(t, one, one);
        assert(two_pow_elem::<R>(l) == R::mul_spec(t, two));
        // (p h) (t 2) = p (h (t 2)) = p ((h t) 2) = p ((t h) 2) = p (t (h 2)) = p t
        R::lemma_mul_laws(p, h, R::mul_spec(t, two));
        R::lemma_mul_laws(h, t, two);
        R::lemma_mul_laws(t, h, two);
        R::lemma_mul_laws(t, one, one);
        assert(R::mul_spec(h, R::mul_spec(t, two)) == t);
    }
}

/// The half `(q + 1) / 2` of an odd modulus `q`: `2 h = 1`. `None` for an even modulus.
fn half_element<R: LargeCanonicalRing<Canonical = BigUint<N>>, const N: usize>() -> (r: Option<R>)
    requires
        R::params_ok(),
    ensures
        r is Some <==> R::canonical_modulus() % 2 == 1,
        r matches Some(h) ==> h.wf() && R::mul_spec(h, R::add_spec(R::one_spec(), R::one_spec()))
            == R::one_spec(),
{
    proof {
        R::lemma_canonical_identities();
        R::lemma_identities_wf();
        R::lemma_modulus_fits();
        if N == 0 {
            assert(crate::arith::bigint::limb_pow(0) == 1);
        }
    }
    let m = R::modulus_canonical();
    let (quot, rem) = m.div_rem_small(2);
    let ghost q = R::canonical_modulus();
    proof {
        assert(m.canonical_nat() == m.value());
        if q < BigUint::<N>::bound() {
            vstd::arithmetic::div_mod::lemma_small_mod(q, BigUint::<N>::bound());
        } else {
            vstd::arithmetic::div_mod::lemma_mod_self_0(BigUint::<N>::bound() as int);
            crate::arith::bigint::lemma_limb_pow((N - 1) as nat);
            let k = crate::arith::bigint::limb_pow((N - 1) as nat);
            vstd::arithmetic::div_mod::lemma_fundamental_div_mod_converse(q as int, 2, (k * 0x8000_0000_0000_0000) as int, 0);
        }
        vstd::arithmetic::div_mod::lemma_fundamental_div_mod_converse(m.value() as int, 2, quot.value() as int, rem as int);
    }
    if rem == 0 {
        return None;
    }
    proof {
        crate::arith::bigint::lemma_limbs_value_bound(quot.limbs@);
    }
    let (half, _) = quot.add_small(1);
    let h = R::from_canonical(&half);
    let one = R::one();
    let two = R::add_ref(&one, &one);
    proof {
        assert(half.value() == quot.value() + 1);
        assert(half.canonical_nat() == half.value());
        vstd::arithmetic::div_mod::lemma_small_mod(half.value(), q);
        R::lemma_canonical(one, one);
        vstd::arithmetic::div_mod::lemma_small_mod(2, q);
        R::lemma_canonical(h, two);
        assert(h.canonical_value() * two.canonical_value() == q + 1);
        vstd::arithmetic::div_mod::lemma_fundamental_div_mod_converse((q + 1) as int, q as int, 1, 1);
        R::lemma_closed(h, two);
        R::lemma_canonical(R::mul_spec(h, two), one);
    }
    Some(h)
}

impl<P: LargeRnsProfile<LIMBS>, const LIMBS: usize> LargeRns<P, LIMBS> {
    /// The profile's root of unity of order `2^s`, as an element: the element with
    /// the profile's residues.
    pub closed spec fn rns_two_adic_root_spec() -> Self {
        choose|g: Self| g.wf() && g.residues_spec() == P::TWO_ADIC_ROOT@
    }

    /// The profile's root residues are below their moduli.
    pub open spec fn root_residues_ok() -> bool {
        forall|i: int| 0 <= i < LIMBS ==> P::TWO_ADIC_ROOT@[i] < P::MODULI@[i]
    }

    /// The element with the profile's root residues is the root.
    proof fn lemma_rns_two_adic_root_spec(g: Self)
        requires
            Self::params_ok(),
            g.wf(),
            g.residues_spec() == P::TWO_ADIC_ROOT@,
        ensures
            g == Self::rns_two_adic_root_spec(),
    {
        let gs = Self::rns_two_adic_root_spec();
        Self::lemma_same_residues(g, gs);
    }

    /// The element whose residues are `n^{-1} mod m_i`; `None` when one of them does
    /// not exist.
    fn residue_inverse(n: usize) -> (r: Option<Self>)
        requires
            Self::params_ok(),
        ensures
            r is Some <==> forall|i: int|
                0 <= i < LIMBS ==> #[trigger] gcd_spec((n as nat) % (P::MODULI@[i] as nat), P::MODULI@[i] as nat)
                    == 1,
            r matches Some(w) ==> w.wf() && forall|i: int|
                0 <= i < LIMBS ==> ((n as nat) % (P::MODULI@[i] as nat)) * (#[trigger] w.residues_spec()[i] as nat) % (
                P::MODULI@[i] as nat) == 1nat % (P::MODULI@[i] as nat),
    {
        let mut residues = [0u64; LIMBS];
        let mut i: usize = 0;
        while i < LIMBS
            invariant
                Self::profile_ok(),
                i <= LIMBS,
                residues@.len() == LIMBS,
                forall|k: int|
                    0 <= k < i ==> #[trigger] gcd_spec((n as nat) % (P::MODULI@[k] as nat), P::MODULI@[k] as nat)
                        == 1,
                forall|k: int|
                    0 <= k < i ==> residues@[k] < P::MODULI@[k] && ((n as nat) % (P::MODULI@[k] as nat)) * (
                    #[trigger] residues@[k] as nat) % (P::MODULI@[k] as nat) == 1nat % (P::MODULI@[k] as nat),
            decreases LIMBS - i,
        {
            proof {
                assert(P::MODULI@[i as int] >= 2);
            }
            let m = P::MODULI[i];
            let a = ((n as u128) % (m as u128)) as u64;
            if gcd(a, m) != 1 {
                return None;
            }
            let inv = mod_inv_u64(a, m);
            residues[i] = inv;
            i = i + 1;
        }
        match Self::try_from_residues(residues) {
            Ok(w) => Some(w),
            Err(_) => None,
        }
    }

    /// `2^s` for the profile's two-adicity `s`, or the largest power of two in
    /// `usize` when that is smaller.
    fn rns_max_ntt_size() -> (m: usize)
        ensures
            m == capped_pow2(P::TWO_ADICITY as nat),
            is_pow2(m as nat),
    {
        capped_two_pow(P::TWO_ADICITY)
    }
}

impl<P: LargeRnsProfile<LIMBS>, const LIMBS: usize> NTTRing for LargeRns<P, LIMBS> {
    /// `1` for `n = 1`; otherwise `g^(2^s / n)` for the profile's root `g` of order
    /// `2^s`, when the modulus is odd, the root's residues are in range, `n` is a
    /// power of two up to `2^s` and that power is a primitive `n`-th root of unity.
    open spec fn root_spec(n: nat) -> Option<Self> {
        if n == 1 {
            Some(Self::one_spec())
        } else if Self::canonical_modulus() % 2 == 0 || !Self::root_residues_ok() {
            None
        } else {
            two_adic_root_candidate(Self::rns_two_adic_root_spec(), capped_pow2(P::TWO_ADICITY as nat), n)
        }
    }

    fn root_of_unity(n: usize) -> (r: Option<Self>) {
        proof {
            Self::lemma_identities_wf();
        }
        if n == 1 {
            let one = Self::one();
            proof {
                Self::lemma_mul_laws(one, one, one);
                assert(pow_spec(one, 0) == Self::one_spec());
                assert(pow_spec(one, 1) == Self::mul_spec(pow_spec(one, 0), one));
            }
            return Some(one);
        }
        let half = half_element::<Self, LIMBS>();
        if half.is_none() {
            return None;
        }
        let g = match Self::try_from_residues(P::TWO_ADIC_ROOT) {
            Ok(g) => g,
            Err(_) => return None,
        };
        proof {
            Self::lemma_rns_two_adic_root_spec(g);
            Self::lemma_canonical_identities();
            Self::lemma_canonical(Self::one_spec(), Self::one_spec());
            let q = Self::canonical_modulus();
            vstd::arithmetic::div_mod::lemma_small_mod((q - 1) as nat, q);
            vstd::arithmetic::div_mod::lemma_small_mod(1, q);
        }
        let max = Self::rns_max_ntt_size();
        two_adic_root(&g, max, n)
    }

    fn inv_root_of_unity(n: usize) -> (r: Option<Self>) {
        match Self::root_of_unity(n) {
            Some(w) => {
                proof {
                    // No root of unity is given for length zero.
                    assert(n >= 1);
                }
                Some(root_inverse(&w, n))
            },
            None => None,
        }
    }

    /// `n^{-1}`: for a power of two `n`, `((q + 1) / 2)^log2(n)` (`None` for an even
    /// modulus unless `n = 1`); for other lengths, the residues `n^{-1} mod m_i`
    /// (`None` when one of them does not exist).
    fn inverse_ntt_scale(n: usize) -> (r: Option<Self>)
        ensures
            is_pow2(n as nat) ==> (r is Some <==> (n == 1 || Self::canonical_modulus() % 2 == 1)),
            !is_pow2(n as nat) ==> (r is Some <==> forall|i: int|
                0 <= i < LIMBS ==> #[trigger] gcd_spec((n as nat) % (P::MODULI@[i] as nat), P::MODULI@[i] as nat)
                    == 1),
            !is_pow2(n as nat) ==> (r matches Some(w) ==> forall|i: int|
                0 <= i < LIMBS ==> ((n as nat) % (P::MODULI@[i] as nat)) * (#[trigger] w.residues_spec()[i] as nat)
                    % (P::MODULI@[i] as nat) == 1nat % (P::MODULI@[i] as nat)),
    {
        proof {
            Self::lemma_identities_wf();
        }
        if n == 1 {
            let one = Self::one();
            proof {
                Self::lemma_mul_laws(one, one, one);
                assert(log2(1) == 0);
            }
            return Some(one);
        }
        match validate_power_of_two_len(n) {
            Err(_) => return Self::residue_inverse(n),
            Ok(_) => {},
        }
        let h = match half_element::<Self, LIMBS>() {
            Some(h) => h,
            None => return None,
        };
        let l = log2_exec(n);
        let c = ring_pow(&h, l as u64);
        proof {
            lemma_half_pow_inverse(h, l as nat);
        }
        Some(c)
    }

    fn max_ntt_size() -> (m: usize) {
        Self::rns_max_ntt_size()
    }

    fn ntt_forward_in_place(coeffs: &mut [Self]) -> (r: Result<(), NttError>) {
        let n = coeffs.len();
        let root = Self::root_of_unity(n);
        let inv_root = Self::inv_root_of_unity(n);
        let scale = Self::inverse_ntt_scale(n);
        proof {
            if is_pow2(n as nat) && Self::root_spec(n as nat) is Some {
                assert(crate::arith::ntt::roots_ok(n as nat, root, inv_root, scale));
            }
        }
        let plan = match NttPlan::from_roots(n, root, inv_root, scale) {
            Ok(p) => p,
            Err(e) => return Err(e),
        };
        let r = scalar_ntt_forward_with_plan(coeffs, &plan);
        proof {
            assert(is_ring_plan(plan, old(coeffs)@.len(), Self::root_spec(old(coeffs)@.len())) && final(coeffs)@
                == plan.forward_spec(old(coeffs)@));
        }
        r
    }

    fn ntt_forward_with_plan(coeffs: &mut [Self], plan: &NttPlan<Self>) -> (r: Result<(), NttError>) {
        scalar_ntt_forward_with_plan(coeffs, plan)
    }

    fn ntt_inverse_in_place(evals: &mut [Self]) -> (r: Result<(), NttError>) {
        let n = evals.len();
        let root = Self::root_of_unity(n);
        let inv_root = Self::inv_root_of_unity(n);
        let scale = Self::inverse_ntt_scale(n);
        proof {
            if is_pow2(n as nat) && Self::root_spec(n as nat) is Some {
                assert(crate::arith::ntt::roots_ok(n as nat, root, inv_root, scale));
            }
        }
        let plan = match NttPlan::from_roots(n, root, inv_root, scale) {
            Ok(p) => p,
            Err(e) => return Err(e),
        };
        let r = scalar_ntt_inverse_with_plan(evals, &plan);
        proof {
            assert(is_ring_plan(plan, old(evals)@.len(), Self::root_spec(old(evals)@.len())) && final(evals)@
                == plan.inverse_spec(old(evals)@));
        }
        r
    }

    fn ntt_inverse_with_plan(evals: &mut [Self], plan: &NttPlan<Self>) -> (r: Result<(), NttError>) {
        scalar_ntt_inverse_with_plan(evals, plan)
    }
}

} // verus!
