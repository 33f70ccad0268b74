//! The Number Theoretic Transform over [`PrimeField`]: roots of unity from a generator
//! of `Z_q^*`, the scale `n^{-1}`, and the transforms themselves.
use crate::arith::ntt::{
    NTTRing, NttError, NttPlan, forward_outcome, inverse_outcome, is_pow2, is_primitive_root,
    is_ring_plan, log2, two_pow_elem, lemma_two_pow_value, lemma_pow2_log2,
    scalar_ntt_forward_with_plan, scalar_ntt_inverse_with_plan,
};
use crate::arith::prime::{GOLDILOCKS_MODULUS, PrimeField, PrimeFieldLimb};
use crate::arith::ring::{Field, IntegerRing, Ring, pow_spec, seq_wf};
use crate::arith::rns::{
    divides, is_prime, lemma_divides_trans, lemma_euclid, lemma_least_divisor_prime,
    lemma_no_small_divisor_prime,
};
use vstd::prelude::*;

verus! {

/// A nonzero power of zero is zero, so a root of unity is never zero.
proof fn lemma_root_nonzero<R: IntegerRing>(w: R, n: nat)
    requires
        w.wf(),
        n >= 1,
        pow_spec(w, n) == R::one_spec(),
    ensures
        w != R::zero_spec(),
{
    R::lemma_wf_params(w);
    R::lemma_identities_wf();
    R::lemma_identity_values();
    if w == R::zero_spec() {
        crate::arith::ring::lemma_pow_wf(w, (n - 1) as nat);
        R::lemma_mul_laws(pow_spec(w, (n - 1) as nat), R::zero_spec(), R::zero_spec());
    }
}

/// In `Z_q` with `q` prime, a square root of `1` other than `1` is `-1`.
proof fn lemma_square_one<const Q: u64, L: PrimeFieldLimb>(x: PrimeField<Q, L>)
    requires
        x.wf(),
        PrimeField::<Q, L>::mul_spec(x, x) == PrimeField::<Q, L>::one_spec(),
        x != PrimeField::<Q, L>::one_spec(),
    ensures
        x == PrimeField::<Q, L>::neg_spec(PrimeField::<Q, L>::one_spec()),
{
    PrimeField::<Q, L>::lemma_wf_params(x);
    PrimeField::<Q, L>::lemma_q_prime();
    PrimeField::<Q, L>::lemma_identities_wf();
    PrimeField::<Q, L>::lemma_identity_values();
    let one = PrimeField::<Q, L>::one_spec();
    let m1 = PrimeField::<Q, L>::neg_spec(one);
    PrimeField::<Q, L>::lemma_closed(one, one);
    PrimeField::<Q, L>::lemma_value(x, x);
    PrimeField::<Q, L>::lemma_value(x, one);
    PrimeField::<Q, L>::lemma_value(one, one);
    PrimeField::<Q, L>::lemma_value(x, m1);
    let q = Q as nat;
    let xv = x.value();
    assert((xv * xv) % q == 1);
    assert(xv != 1);
    assert(xv != 0) by {
        if xv == 0 {
            assert(xv * xv == 0) by (nonlinear_arith)
                requires
                    xv == 0,
            ;
            vstd::arithmetic::div_mod::lemma_small_mod(0nat, q);
        }
    }
    vstd::arithmetic::div_mod::lemma_fundamental_div_mod((xv * xv) as int, q as int);
    let k = (xv * xv) / q;
    assert(((xv - 1) * (xv + 1)) as nat == q * k) by (nonlinear_arith)
        requires
            xv * xv == q * k + 1,
            xv >= 1,
    ;
    vstd::arithmetic::div_mod::lemma_mod_multiples_basic(k as int, q as int);
    assert(q * k == k * q) by (nonlinear_arith);
    vstd::arithmetic::div_mod::lemma_small_mod((xv - 1) as nat, q);
    lemma_euclid(q, (xv - 1) as nat, xv + 1);
    assert(xv + 1 == q) by {
        if xv + 1 < q {
            vstd::arithmetic::div_mod::lemma_small_mod(xv + 1, q);
        }
    }
    vstd::arithmetic::div_mod::lemma_small_mod((q - 1) as nat, q);
}

/// An odd prime divides no power of two.
pub(crate) proof fn lemma_pow2_not_multiple(q: nat, n: nat)
    requires
        is_prime(q),
        q >= 3,
        is_pow2(n),
    ensures
        n % q != 0,
    decreases n,
{
    if n == 1 {
        vstd::arithmetic::div_mod::lemma_small_mod(1, q);
    } else {
        let m = n / 2;
        lemma_pow2_not_multiple(q, m);
        assert(n == 2 * m);
        vstd::arithmetic::div_mod::lemma_small_mod(2, q);
        if n % q == 0 {
            lemma_euclid(q, 2, m);
        }
    }
}

/// `g` passes the generator test of `Z_q^*`: `g^((q - 1) / p) != 1` for every prime
/// `p` dividing `q - 1`.
pub open spec fn passes_generator_test<const Q: u64, L: PrimeFieldLimb>(g: PrimeField<Q, L>) -> bool {
    forall|p: nat|
        #![trigger divides(p, (Q - 1) as nat)]
        is_prime(p) && divides(p, (Q - 1) as nat) ==> pow_spec(g, (Q - 1) as nat / p)
            != PrimeField::<Q, L>::one_spec()
}

/// The generator that the transforms build their roots from: `7` for the Goldilocks
/// prime, otherwise the least `g >= 2` that passes the generator test.
pub open spec fn is_chosen_generator<const Q: u64, L: PrimeFieldLimb>(g: PrimeField<Q, L>) -> bool {
    &&& g.wf()
    &&& if Q == GOLDILOCKS_MODULUS {
        g.value() == 7
    } else {
        &&& 2 <= g.value()
        &&& passes_generator_test(g)
        &&& forall|e: PrimeField<Q, L>|
            e.wf() && 2 <= e.value() < g.value() ==> !#[trigger] passes_generator_test(e)
    }
}

/// The chosen generator, if there is one.
pub open spec fn chosen_generator<const Q: u64, L: PrimeFieldLimb>() -> Option<PrimeField<Q, L>> {
    if exists|g: PrimeField<Q, L>| #[trigger] is_chosen_generator(g) {
        Some(choose|g: PrimeField<Q, L>| #[trigger] is_chosen_generator(g))
    } else {
        None
    }
}

/// There is at most one chosen generator.
proof fn lemma_chosen_generator_unique<const Q: u64, L: PrimeFieldLimb>(g1: PrimeField<Q, L>, g2: PrimeField<Q, L>)
    requires
        is_chosen_generator(g1),
        is_chosen_generator(g2),
    ensures
        g1 == g2,
{
    if Q != GOLDILOCKS_MODULUS {
        if g1.value() < g2.value() {
            assert(!passes_generator_test(g1));
        }
        if g2.value() < g1.value() {
            assert(!passes_generator_test(g2));
        }
    }
    <PrimeField<Q, L> as IntegerRing>::lemma_value(g1, g2);
}

impl<const Q: u64, L: PrimeFieldLimb> PrimeField<Q, L> {
    /// Find a generator of the multiplicative group Z_q*.
    ///
    /// Factors `q - 1` by trial division and returns the least `g >= 2` such that
    /// `g^((q-1)/f) != 1` for every prime factor `f`; the Goldilocks prime uses its
    /// known generator `7`. Returns `None` if no candidate passes (which cannot happen
    /// for a prime `q`).
    fn find_generator() -> (r: Option<Self>)
        requires
            Self::q_ok(),
        ensures
            Q == GOLDILOCKS_MODULUS ==> (r matches Some(g) && g.wf() && g.value() == 7),
            match r {
                Some(g) => chosen_generator::<Q, L>() == Some(g),
                None => chosen_generator::<Q, L>() is None,
            },
            Q != GOLDILOCKS_MODULUS ==> match r {
                Some(g) => {
                    &&& g.wf()
                    &&& 2 <= g.value()
                    &&& passes_generator_test(g)
                    &&& forall|e: Self|
                        e.wf() && 2 <= e.value() < g.value() ==> !#[trigger] passes_generator_test(e)
                },
                None => forall|e: Self| e.wf() && 2 <= e.value() ==> !#[trigger] passes_generator_test(e),
            },
    {
        if Q == GOLDILOCKS_MODULUS {
            let g = Self::from_u64(7);
            proof {
                vstd::arithmetic::div_mod::lemma_small_mod(7, Q as nat);
                assert(is_chosen_generator(g));
                let c = choose|c: Self| #[trigger] is_chosen_generator(c);
                lemma_chosen_generator_unique(c, g);
            }
            return Some(g);
        }
        let ghost m0: nat = (Q - 1) as nat;
        // Factor Q - 1
        let mut factors: Vec<u64> = Vec::new();
        let mut n: u64 = Q - 1;
        let mut d: u64 = 2;
        proof {
            vstd::arithmetic::div_mod::lemma_mod_self_0(m0 as int);
        }
        while d <= n / d
            invariant
                Self::q_ok(),
                m0 == Q - 1,
                m0 >= 2,
                2 <= d <= Q,
                1 <= n <= Q - 1,
                m0 % (n as nat) == 0,
                forall|i: int|
                    0 <= i < factors@.len() ==> is_prime(#[trigger] factors@[i] as nat) && divides(
                        factors@[i] as nat,
                        m0,
                    ) && factors@[i] < d,
                forall|p: nat|
                    is_prime(p) && #[trigger] divides(p, m0) && p < d ==> factors@.contains(p as u64),
                forall|p: nat| is_prime(p) && #[trigger] divides(p, m0) && p >= d ==> (n as nat) % p == 0,
                forall|k: nat| 2 <= k < d ==> #[trigger] ((n as nat) % k) != 0,
            decreases Q - d,
        {
            proof {
                assert(d <= n) by (nonlinear_arith)
                    requires
                        d <= n / d,
                        d >= 2,
                ;
            }
            if n % d == 0 {
                proof {
                    lemma_least_divisor_prime(n as nat, d as nat);
                    lemma_divides_trans(d as nat, n as nat, m0);
                }
                let ghost before = factors@;
                factors.push(d);
                proof {
                    assert forall|p: nat| is_prime(p) && #[trigger] divides(p, m0) && p < d + 1 implies factors@.contains(p as u64) by {
                        if p == d as nat {
                            assert(factors@[factors@.len() - 1] == d);
                        } else {
                            assert(before.contains(p as u64));
                            let w = choose|w: int| 0 <= w < before.len() && before[w] == p as u64;
                            assert(factors@[w] == p as u64);
                        }
                    }
                }
                while n % d == 0
                    invariant
                        Self::q_ok(),
                        m0 == Q - 1,
                        2 <= d <= Q,
                        is_prime(d as nat),
                        1 <= n <= Q - 1,
                        m0 % (n as nat) == 0,
                        forall|p: nat| is_prime(p) && #[trigger] divides(p, m0) && p > d ==> (n as nat) % p == 0,
                        forall|k: nat| 2 <= k < d ==> #[trigger] ((n as nat) % k) != 0,
                    decreases n,
                {
                    let ghost old_n = n as nat;
                    proof {
                        vstd::arithmetic::div_mod::lemma_fundamental_div_mod(n as int, d as int);
                        let q = n / d;
                        assert(q >= 1 && q < n) by (nonlinear_arith)
                            requires
                                n == d * q,
                                n >= 1,
                                d >= 2,
                        ;
                    }
                    n = n / d;
                    proof {
                        let q = n as nat;
                        assert(old_n == d as nat * q);
                        // q divides old_n, hence m0
                        vstd::arithmetic::div_mod::lemma_mod_multiples_basic(d as int, q as int);
                        assert(d as nat * q == q * d as nat) by (nonlinear_arith);
                        lemma_divides_trans(q, old_n, m0);
                        // primes above d that divide old_n divide q
                        assert forall|p: nat| is_prime(p) && #[trigger] divides(p, m0) && p > d implies q % p == 0 by {
                            assert(old_n % p == 0);
                            vstd::arithmetic::div_mod::lemma_small_mod(d as nat, p);
                            lemma_euclid(p, d as nat, q);
                        }
                        // divisors of q divide old_n
                        assert forall|k: nat| 2 <= k < d implies #[trigger] (q % k) != 0 by {
                            if q % k == 0 {
                                lemma_divides_trans(k, q, old_n);
                            }
                        }
                    }
                }
            } else {
                proof {
                    // d itself is not a prime factor of Q - 1: it would divide n
                    assert forall|p: nat| is_prime(p) && #[trigger] divides(p, m0) && p < d + 1 implies factors@.contains(p as u64) by {
                        if p == d as nat {
                            assert((n as nat) % p == 0);
                        }
                    }
                }
            }
            d = d + 1;
        }
        // What remains of Q - 1 is 1 or a prime above every factor found.
        if n > 1 {
            proof {
                assert(d * d > n) by (nonlinear_arith)
                    requires
                        d > n / d,
                        d >= 2,
                ;
                lemma_no_small_divisor_prime(n as nat, d as nat);
                vstd::arithmetic::div_mod::lemma_mod_self_0(n as int);
            }
            let ghost before_last = factors@;
            factors.push(n);
            proof {
                assert forall|p: nat| is_prime(p) && #[trigger] divides(p, m0) implies factors@.contains(p as u64) by {
                    if p >= d {
                        // p divides the prime n, so p == n
                        assert((n as nat) % p == 0);
                        if p != n as nat {
                            assert(p <= n as nat) by {
                                if p > n as nat {
                                    vstd::arithmetic::div_mod::lemma_small_mod(n as nat, p);
                                }
                            }
                            assert((n as nat) % p != 0);
                        }
                        assert(factors@[factors@.len() - 1] == n);
                    } else {
                        assert(before_last.contains(p as u64));
                        let w = choose|w: int| 0 <= w < before_last.len() && before_last[w] == p as u64;
                        assert(factors@[w] == p as u64);
                    }
                }
            }
        } else {
            proof {
                assert forall|p: nat| is_prime(p) && #[trigger] divides(p, m0) implies factors@.contains(p as u64) by {
                    if p >= d {
                        assert((n as nat) % p == 0);
                        vstd::arithmetic::div_mod::lemma_small_mod(1, p);
                    }
                }
            }
        }
        // Every factor is a prime dividing Q - 1, and every such prime is a factor.
        // Trial generators
        let mut g_val: u64 = 2;
        while g_val < Q
            invariant
                Self::q_ok(),
                Q != GOLDILOCKS_MODULUS,
                m0 == Q - 1,
                2 <= g_val <= Q,
                forall|i: int|
                    0 <= i < factors@.len() ==> is_prime(#[trigger] factors@[i] as nat) && divides(
                        factors@[i] as nat,
                        m0,
                    ),
                forall|p: nat| is_prime(p) && #[trigger] divides(p, m0) ==> factors@.contains(p as u64),
                forall|e: Self| e.wf() && 2 <= e.value() < g_val ==> !#[trigger] passes_generator_test(e),
            decreases Q - g_val,
        {
            let g = Self::from_u64(g_val);
            proof {
                vstd::arithmetic::div_mod::lemma_small_mod(g_val as nat, Q as nat);
            }
            let mut is_generator = true;
            let mut i: usize = 0;
            while i < factors.len()
                invariant_except_break
                    Self::q_ok(),
                    g.wf(),
                    i <= factors@.len(),
                    is_generator,
                    forall|j: int| 0 <= j < i ==> pow_spec(g, (Q - 1) as nat / (#[trigger] factors@[j] as nat)) != Self::one_spec(),
                invariant
                    forall|j: int| 0 <= j < factors@.len() ==> #[trigger] factors@[j] >= 2,
                ensures
                    is_generator ==> forall|j: int| 0 <= j < factors@.len() ==> pow_spec(g, (Q - 1) as nat / (#[trigger] factors@[j] as nat)) != Self::one_spec(),
                    !is_generator ==> exists|j: int| 0 <= j < factors@.len() && pow_spec(g, (Q - 1) as nat / (#[trigger] factors@[j] as nat)) == Self::one_spec(),
                decreases factors@.len() - i,
            {
                let exp = (Q - 1) / factors[i];
                if g.pow(exp).is_one() {
                    is_generator = false;
                    break;
                }
                i = i + 1;
            }
            if is_generator {
                proof {
                    assert forall|p: nat| #![trigger divides(p, (Q - 1) as nat)] is_prime(p) && divides(p, (Q - 1) as nat) implies pow_spec(g, (Q - 1) as nat / p) != Self::one_spec() by {
                        assert(divides(p, m0));
                        assert(p <= m0) by {
                            if p > m0 {
                                vstd::arithmetic::div_mod::lemma_small_mod(m0, p);
                            }
                        }
                        assert(factors@.contains(p as u64));
                        let w = choose|w: int| 0 <= w < factors@.len() && factors@[w] == p as u64;
                        assert(factors@[w] == p as u64);
                    }
                    assert(is_chosen_generator(g));
                    let c = choose|c: Self| #[trigger] is_chosen_generator(c);
                    lemma_chosen_generator_unique(c, g);
                }
                return Some(g);
            }
            proof {
                let j = choose|j: int| 0 <= j < factors@.len() && pow_spec(g, (Q - 1) as nat / (#[trigger] factors@[j] as nat)) == Self::one_spec();
                let f = factors@[j] as nat;
                assert(is_prime(f) && divides(f, m0));
                assert(!passes_generator_test(g));
                assert forall|e: Self| e.wf() && 2 <= e.value() < g_val + 1 implies !#[trigger] passes_generator_test(e) by {
                    if e.value() == g_val as nat {
                        Self::lemma_value(e, g);
                    }
                }
            }
            g_val = g_val + 1;
        }
        proof {
            assert forall|e: Self| e.wf() && 2 <= e.value() implies !#[trigger] passes_generator_test(e) by {
                Self::lemma_value(e, e);
            }
            assert forall|c: Self| !#[trigger] is_chosen_generator(c) by {
                if is_chosen_generator(c) {
                    assert(passes_generator_test(c));
                }
            }
        }
        None
    }
}

impl<const Q: u64, L: PrimeFieldLimb> NTTRing for PrimeField<Q, L> {
    /// `g^((q - 1) / n)` for the chosen generator `g`, when `n` divides `q - 1` and
    /// that power is a primitive `n`-th root of unity.
    open spec fn root_spec(n: nat) -> Option<Self> {
        if n == 0 || (Q - 1) as nat % n != 0 {
            None
        } else {
            match chosen_generator::<Q, L>() {
                None => None,
                Some(g) => {
                    let w = pow_spec(g, (Q - 1) as nat / n);
                    if is_primitive_root(w, n) {
                        Some(w)
                    } else {
                        None
                    }
                },
            }
        }
    }

    fn root_of_unity(n: usize) -> (r: Option<Self>)
        ensures
            r is Some ==> n >= 1,
    {
        if n == 0 {
            return None;
        }
        let n64 = n as u64;
        if (Q - 1) % n64 != 0 {
            return None;
        }
        let g = match Self::find_generator() {
            Some(g) => g,
            None => return None,
        };
        let exp = (Q - 1) / n64;
        let root = g.pow(exp);
        if !root.pow(n64).is_one() {
            return None;
        }
        if n > 1 && root.pow((n / 2) as u64).is_one() {
            return None;
        }
        proof {
            if is_pow2(n as nat) && n > 1 {
                let h = (n / 2) as nat;
                assert(h + h == n as nat);
                crate::arith::ring::lemma_pow_adds(root, h, h);
                crate::arith::ring::lemma_pow_wf(root, h);
                lemma_square_one(pow_spec(root, h));
            }
        }
        Some(root)
    }

    /// The inverse of the root: when `q` is prime, `root * r = 1`.
    fn inv_root_of_unity(n: usize) -> (r: Option<Self>)
        ensures
            r matches Some(w) ==> Self::root_spec(n as nat) matches Some(x) && (<Self as Field>::is_field()
                ==> Self::mul_spec(x, w) == Self::one_spec()),
    {
        match Self::root_of_unity(n) {
            Some(w) => {
                proof {
                    lemma_root_nonzero(w, n as nat);
                    Self::lemma_q_prime();
                }
                Some(w.inv())
            },
            None => None,
        }
    }

    /// `n^{-1}` in `Z_q`: `None` exactly when `q` divides `n`; when `q` is prime the
    /// result times `n` is `1`.
    fn inverse_ntt_scale(n: usize) -> (r: Option<Self>)
        ensures
            match r {
                Some(w) => {
                    &&& w.wf()
                    &&& (n as nat) % (Q as nat) != 0
                    &&& <Self as Field>::is_field() ==> ((n as nat) * w.value()) % (Q as nat) == 1
                },
                None => (n as nat) % (Q as nat) == 0,
            },
    {
        let v = Self::from_u64(n as u64);
        proof {
            Self::lemma_identities_wf();
            Self::lemma_identity_values();
            Self::lemma_value(v, Self::zero_spec());
        }
        proof {
            if is_pow2(n as nat) {
                Self::lemma_q_prime();
                lemma_pow2_not_multiple(Q as nat, n as nat);
            }
        }
        if v.is_zero() {
            None
        } else {
            let w = v.inv();
            proof {
                Self::lemma_q_prime();
                Self::lemma_value(v, w);
                Self::lemma_closed(v, w);
                Self::lemma_value(Self::mul_spec(v, w), Self::one_spec());
                vstd::arithmetic::div_mod::lemma_mul_mod_noop_left(n as int, w.value() as int, Q as int);
            }
            proof {
                if is_pow2(n as nat) {
                    let l = log2(n as nat);
                    let t = two_pow_elem::<Self>(l);
                    lemma_pow2_log2(n as nat);
                    lemma_two_pow_value::<Self>(l);
                    Self::lemma_value(w, t);
                    Self::lemma_closed(w, t);
                    Self::lemma_value(Self::mul_spec(w, t), Self::one_spec());
                    vstd::arithmetic::div_mod::lemma_mul_mod_noop_right(w.value() as int, n as int, Q as int);
                    assert((w.value() * n) == (n * w.value())) by (nonlinear_arith);
                }
            }
            Some(w)
        }
    }

    /// The largest power of two dividing `q - 1`, or the largest power of two in
    /// `usize` if that is smaller.
    fn max_ntt_size() -> (m: usize)
        ensures
            m >= 1,
            ((Q - 1) as nat) % (m as nat) == 0,
            ((Q - 1) as nat) % (2 * m as nat) != 0 || m > usize::MAX / 2,
    {
        let mut v: u64 = Q - 1;
        let mut max: usize = 1;
        while v % 2 == 0 && max <= usize::MAX / 2
            invariant
                v >= 1,
                max >= 1,
                is_pow2(max as nat),
                (Q - 1) as nat == (v as nat) * (max as nat),
            decreases v,
        {
            proof {
                vstd::arithmetic::div_mod::lemma_fundamental_div_mod(v as int, 2);
                assert((v as nat) * (max as nat) == ((v / 2) as nat) * ((max * 2) as nat)) by (nonlinear_arith)
                    requires
                        v == 2 * (v / 2),
                ;
            }
            v = v / 2;
            max = max * 2;
            proof {
                assert((max as nat) / 2 == (max / 2) as nat);
            }
        }
        proof {
            let vv = v as int;
            let mm = max as int;
            vstd::arithmetic::div_mod::lemma_mod_multiples_basic(vv, mm);
            assert(vv * mm == mm * vv) by (nonlinear_arith);
            if v % 2 != 0 {
                vstd::arithmetic::div_mod::lemma_fundamental_div_mod(vv, 2);
                let h = vv / 2;
                assert(vv * mm == (2 * mm) * h + mm) by (nonlinear_arith)
                    requires
                        vv == 2 * h + 1,
                ;
                vstd::arithmetic::div_mod::lemma_fundamental_div_mod_converse(vv * mm, 2 * mm, h, mm);
            }
        }
        max
    }

    fn ntt_forward_in_place(coeffs: &mut [Self]) -> (r: Result<(), NttError>) {
        let n = coeffs.len();
        let root = Self::root_of_unity(n);
        let inv_root = Self::inv_root_of_unity(n);
        let scale = Self::inverse_ntt_scale(n);
        proof {
            if is_pow2(n as nat) && Self::root_spec(n as nat) is Some {
                assert(crate::arith::ntt::roots_ok(n as nat, root, inv_root, scale));
            }
        }
        let plan = match NttPlan::from_roots(n, root, inv_root, scale) {
            Ok(p) => p,
            Err(e) => return Err(e),
        };
        let r = scalar_ntt_forward_with_plan(coeffs, &plan);
        proof {
            assert(is_ring_plan(plan, old(coeffs)@.len(), Self::root_spec(old(coeffs)@.len())) && final(coeffs)@ == plan.forward_spec(old(coeffs)@));
        }
        r
    }

    fn ntt_forward_with_plan(coeffs: &mut [Self], plan: &NttPlan<Self>) -> (r: Result<(), NttError>) {
        scalar_ntt_forward_with_plan(coeffs, plan)
    }

    fn ntt_inverse_in_place(evals: &mut [Self]) -> (r: Result<(), NttError>) {
        let n = evals.len();
        let root = Self::root_of_unity(n);
        let inv_root = Self::inv_root_of_unity(n);
        let scale = Self::inverse_ntt_scale(n);
        proof {
            if is_pow2(n as nat) && Self::root_spec(n as nat) is Some {
                assert(crate::arith::ntt::roots_ok(n as nat, root, inv_root, scale));
            }
        }
        let plan = match NttPlan::from_roots(n, root, inv_root, scale) {
            Ok(p) => p,
            Err(e) => return Err(e),
        };
        let r = scalar_ntt_inverse_with_plan(evals, &plan);
        proof {
            assert(is_ring_plan(plan, old(evals)@.len(), Self::root_spec(old(evals)@.len())) && final(evals)@ == plan.inverse_spec(old(evals)@));
        }
        r
    }

    fn ntt_inverse_with_plan(evals: &mut [Self], plan: &NttPlan<Self>) -> (r: Result<(), NttError>) {
        scalar_ntt_inverse_with_plan(evals, plan)
    }
}

} // verus!
