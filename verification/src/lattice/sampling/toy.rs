//! Correctness-first toy samplers.
//!
//! Each sampler turns random draws into ring elements. The draws themselves come from
//! the caller's random number generator; the functions here take them as arguments:
//! a 64-bit word for the uniform sampler (rejected when it falls in the incomplete
//! last block of `q` values), a choice in `0..3` for the ternary sampler, and the two
//! bit counts of the centered binomial sampler.
use crate::arith::bigint::{
    BigUint, lemma_limb_pow_pow2, lemma_limbs_value_bound, lemma_limbs_value_skip, lemma_limbs_value_split,
    lemma_limbs_value_zeros, limb_pow, limbs_value, low_mask,
};
use vstd::arithmetic::power2::{lemma2_to64, lemma_pow2_adds, lemma_pow2_strictly_increases, pow2};
use crate::arith::large_modulus::{CanonicalValue, LargeCanonicalRing};
use crate::arith::ring::{IntegerRing, Ring};
use core::marker::PhantomData;
use vstd::prelude::*;

verus! {

/// `x mod q` as an element of the integer ring: the element whose value is the
/// least non-negative residue of `x`.
pub fn encode_signed_word<R: IntegerRing>(x: i64) -> (r: R)
    requires
        R::params_ok(),
    ensures
        r.wf(),
        r.value() as int == (x as int) % (R::modulus_spec() as int),
{
    proof {
        R::lemma_identity_values();
    }
    if x >= 0 {
        R::from_u64(x as u64)
    } else {
        let abs = ((-(x + 1)) as u64) + 1;
        let modulus = R::modulus();
        if modulus == 0 {
            let r = R::from_u64(u64::MAX - abs + 1);
            proof {
                let q = R::modulus_spec() as int;
                assert(q == 0x1_0000_0000_0000_0000);
                vstd::arithmetic::div_mod::lemma_small_mod((u64::MAX - abs + 1) as nat, q as nat);
                vstd::arithmetic::div_mod::lemma_fundamental_div_mod_converse(x as int, q, -1, x as int + q);
            }
            r
        } else {
            let reduced = abs % modulus;
            if reduced == 0 {
                proof {
                    let q = R::modulus_spec() as int;
                    vstd::arithmetic::div_mod::lemma_fundamental_div_mod(abs as int, q);
                    let k = abs as int / q;
                    let a = abs as int;
                    let xi = x as int;
                    assert(a % q == 0);
                    assert(xi == (-k) * q + 0) by (nonlinear_arith)
                        requires
                            a == q * k + a % q,
                            a % q == 0,
                            xi == -a,
                    ;
                    vstd::arithmetic::div_mod::lemma_fundamental_div_mod_converse(xi, q, -k, 0);
                }
                R::zero()
            } else {
                let r = R::from_u64(modulus - reduced);
                proof {
                    let q = R::modulus_spec() as int;
                    vstd::arithmetic::div_mod::lemma_fundamental_div_mod(abs as int, q);
                    let k = abs as int / q;
                    let a = abs as int;
                    let xi = x as int;
                    let rd = reduced as int;
                    assert(a % q == rd);
                    vstd::arithmetic::div_mod::lemma_small_mod((modulus - reduced) as nat, q as nat);
                    assert(xi == (-k - 1) * q + (q - rd)) by (nonlinear_arith)
                        requires
                            a == q * k + rd,
                            xi == -a,
                    ;
                    vstd::arithmetic::div_mod::lemma_fundamental_div_mod_converse(xi, q, -k - 1, q - rd);
                }
                r
            }
        }
    }
}

/// The uniform sample drawn from the 64-bit word `sample`: `sample mod q`, unless
/// `sample` lies in the top `2^64 mod q` words, which are rejected (`None`) so that
/// every residue is equally likely.
pub fn uniform_from_word<R: IntegerRing>(sample: u64) -> (r: Option<R>)
    requires
        R::params_ok(),
    ensures
        match r {
            Some(e) => e.wf() && e.value() == (sample as nat) % R::modulus_spec(),
            None => sample as nat >= 0x1_0000_0000_0000_0000 - (0x1_0000_0000_0000_0000nat % R::modulus_spec()),
        },
        r is None <==> sample as nat >= 0x1_0000_0000_0000_0000 - (0x1_0000_0000_0000_0000nat % R::modulus_spec()),
{
    proof {
        R::lemma_identity_values();
    }
    let modulus = R::modulus();
    if modulus == 0 {
        proof {
            vstd::arithmetic::div_mod::lemma_mod_self_0(0x1_0000_0000_0000_0000);
        }
        return Some(R::from_u64(sample));
    }
    let reject = ((u64::MAX % modulus) + 1) % modulus;
    let upper = u64::MAX - reject;
    proof {
        let q = modulus as int;
        let t: int = 0x1_0000_0000_0000_0000;
        vstd::arithmetic::div_mod::lemma_add_mod_noop(u64::MAX as int, 1, q);
        vstd::arithmetic::div_mod::lemma_small_mod(1, q as nat);
        vstd::arithmetic::div_mod::lemma_mod_twice(u64::MAX as int, q);
        vstd::arithmetic::div_mod::lemma_add_mod_noop(u64::MAX as int % q, 1, q);
        assert(reject as int == t % q);
    }
    if sample <= upper {
        proof {
            vstd::arithmetic::div_mod::lemma_mod_twice(sample as int, modulus as int);
        }
        Some(R::from_u64(sample % modulus))
    } else {
        None
    }
}

/// The ternary sample for the draw `choice` in `0..3`: `0`, `1`, or `-1 mod q`.
pub fn ternary_from_choice<R: IntegerRing>(choice: usize) -> (r: R)
    requires
        R::params_ok(),
        choice < 3,
    ensures
        r.wf(),
        choice == 0 ==> r.value() == 0,
        choice == 1 ==> r.value() == 1,
        choice == 2 ==> r.value() == R::modulus_spec() - 1,
{
    proof {
        R::lemma_identity_values();
        R::lemma_identities_wf();
    }
    match choice {
        0 => R::zero(),
        1 => R::one(),
        _ => {
            let r = encode_signed_word::<R>(-1);
            proof {
                vstd::arithmetic::div_mod::lemma_fundamental_div_mod_converse(
                    -1,
                    R::modulus_spec() as int,
                    -1,
                    R::modulus_spec() - 1,
                );
            }
            r
        },
    }
}

/// The centered binomial sample `left - right mod q`, where `left` and `right` count
/// the heads among two runs of `eta` fair coin flips.
pub fn cbd_from_counts<R: IntegerRing>(left: u32, right: u32) -> (r: R)
    requires
        R::params_ok(),
    ensures
        r.wf(),
        r.value() as int == (left as int - right as int) % (R::modulus_spec() as int),
{
    encode_signed_word::<R>((left as i64) - (right as i64))
}

/// `x mod q` in a ring with wide canonical values: the element whose canonical value
/// is the least non-negative residue of `x`.
pub fn encode_signed_large<R: LargeCanonicalRing<Canonical = BigUint<N>>, const N: usize>(x: i64) -> (r: R)
    requires
        R::params_ok(),
        R::canonical_modulus() < BigUint::<N>::bound(),
    ensures
        r.wf(),
        r.canonical_value() as int == (x as int) % (R::canonical_modulus() as int),
{
    proof {
        R::lemma_canonical_identities();
        R::lemma_identities_wf();
        if N == 0 {
            assert(crate::arith::bigint::limb_pow(0) == 1);
        }
    }
    if x >= 0 {
        return R::from_small_u64(x as u64);
    }
    let abs = ((-(x + 1)) as u64) + 1;
    let modulus = R::modulus_canonical();
    proof {
        vstd::arithmetic::div_mod::lemma_small_mod(R::canonical_modulus(), BigUint::<N>::bound());
        assert(modulus.canonical_nat() == modulus.value());
    }
    let ghost q = R::canonical_modulus() as int;
    let reduced = match modulus.try_to_u64() {
        Some(m) => abs % m,
        None => abs,
    };
    proof {
        vstd::arithmetic::div_mod::lemma_fundamental_div_mod(abs as int, q);
        if modulus.value() >= 0x1_0000_0000_0000_0000 {
            vstd::arithmetic::div_mod::lemma_small_mod(abs as nat, q as nat);
        }
        assert(reduced as int == abs as int % q);
    }
    if reduced == 0 {
        proof {
            let k = abs as int / q;
            let xi = x as int;
            let a = abs as int;
            assert(xi == (-k) * q + 0) by (nonlinear_arith)
                requires
                    a == q * k + a % q,
                    a % q == 0,
                    xi == -a,
            ;
            vstd::arithmetic::div_mod::lemma_fundamental_div_mod_converse(xi, q, -k, 0);
            R::lemma_canonical(R::zero_spec(), R::zero_spec());
        }
        R::zero()
    } else {
        let (canonical, _) = modulus.sub_small(reduced);
        let r = R::from_canonical(&canonical);
        proof {
            let k = abs as int / q;
            let xi = x as int;
            let a = abs as int;
            let rd = reduced as int;
            vstd::arithmetic::div_mod::lemma_mod_bound(a, q);
            assert(canonical.canonical_nat() == canonical.value());
            assert(canonical.value() == q - rd);
            vstd::arithmetic::div_mod::lemma_small_mod((q - rd) as nat, q as nat);
            assert(xi == (-k - 1) * q + (q - rd)) by (nonlinear_arith)
                requires
                    a == q * k + rd,
                    xi == -a,
            ;
            vstd::arithmetic::div_mod::lemma_fundamental_div_mod_converse(xi, q, -k - 1, q - rd);
        }
        r
    }
}

/// The number of binary digits of `v` (zero for `v = 0`).
pub open spec fn bit_length(v: nat) -> nat
    decreases v,
{
    if v == 0 {
        0
    } else {
        1 + bit_length(v / 2)
    }
}

/// `r` is the bit length of `v` when `2^(r - 1) <= v < 2^r`.
proof fn lemma_bit_length(v: nat, r: nat)
    requires
        v < pow2(r),
        r > 0 ==> pow2((r - 1) as nat) <= v,
    ensures
        bit_length(v) == r,
    decreases r,
{
    lemma2_to64();
    if r == 0 {
        assert(v == 0);
    } else {
        let r1 = (r - 1) as nat;
        lemma_pow2_adds(r1, 1);
        assert(r1 + 1 == r);
        assert(pow2(r) == pow2(r1) * 2);
        assert(v > 0) by {
            vstd::arithmetic::power2::lemma_pow2_pos(r1);
        }
        assert(v / 2 < pow2(r1));
        if r1 > 0 {
            let r2 = (r1 - 1) as nat;
            lemma_pow2_adds(r2, 1);
            assert(r2 + 1 == r1);
            assert(pow2((r1 - 1) as nat) <= v / 2);
        }
        lemma_bit_length(v / 2, r1);
    }
}

/// Keeping the limbs below `hl`, the low `tb` bits of limb `hl` and nothing above keeps
/// the value modulo `2^(64 hl + tb)`.
proof fn lemma_mask_value(w: Seq<u64>, m: Seq<u64>, hl: int, tb: nat)
    requires
        w.len() == m.len(),
        0 <= hl < w.len(),
        1 <= tb <= 64,
        forall|i: int| 0 <= i < hl ==> m[i] == w[i],
        m[hl] as nat == (w[hl] as nat) % pow2(tb),
        forall|i: int| hl < i < w.len() ==> m[i] == 0,
    ensures
        limbs_value(m) == limbs_value(w) % pow2((64 * hl + tb) as nat),
{
    lemma2_to64();
    lemma_limbs_value_split(m, hl);
    lemma_limbs_value_split(w, hl);
    assert(m.take(hl) =~= w.take(hl));
    lemma_limbs_value_skip(m, hl);
    lemma_limbs_value_skip(w, hl);
    lemma_limbs_value_zeros(m.skip(hl + 1));
    let vlo = limbs_value(w.take(hl));
    let p = limb_pow(hl as nat);
    let d = pow2(tb);
    let h = limbs_value(w.skip(hl + 1));
    let x = w[hl] as nat;
    lemma_limbs_value_bound(w.take(hl));
    lemma_limb_pow_pow2(hl as nat);
    lemma_pow2_adds(64 * hl as nat, tb);
    lemma_pow2_adds(tb, (64 - tb) as nat);
    assert(tb + (64 - tb) as nat == 64);
    vstd::arithmetic::power2::lemma_pow2_pos(tb);
    let e = pow2((64 - tb) as nat);
    assert(d * e == 0x1_0000_0000_0000_0000);
    vstd::arithmetic::div_mod::lemma_fundamental_div_mod(x as int, d as int);
    let xq = x / d;
    let xr = x % d;
    assert(limbs_value(m) == vlo + p * xr);
    assert(limbs_value(w) == vlo + p * (x + 0x1_0000_0000_0000_0000 * h));
    assert(limbs_value(w) == (vlo + p * xr) + (p * d) * (xq + e * h)) by (nonlinear_arith)
        requires
            limbs_value(w) == vlo + p * (x + 0x1_0000_0000_0000_0000 * h),
            x == d * xq + xr,
            d * e == 0x1_0000_0000_0000_0000,
    ;
    assert(vlo + p * xr < p * d) by (nonlinear_arith)
        requires
            vlo < p,
            xr < d,
            xr >= 0,
    ;
    assert(pow2((64 * hl + tb) as nat) == p * d);
    vstd::arithmetic::div_mod::lemma_fundamental_div_mod_converse(
        limbs_value(w) as int,
        (p * d) as int,
        (xq + e * h) as int,
        (vlo + p * xr) as int,
    );
}

/// The uniform sample drawn from the limbs `words` in a ring with wide canonical
/// values: the words cut to the bit length `b` of `q`, that is `words mod 2^b`,
/// unless that value is at least `q`, which is rejected (`None`) so that every
/// residue is equally likely.
pub fn uniform_large_from_words<R: LargeCanonicalRing<Canonical = BigUint<N>>, const N: usize>(
    words: [u64; N],
) -> (r: Option<R>)
    requires
        R::params_ok(),
        R::canonical_modulus() < BigUint::<N>::bound(),
        N < 0x400_0000,
    ensures
        r is None <==> limbs_value(words@) % pow2(bit_length(R::canonical_modulus())) >= R::canonical_modulus(),
        r matches Some(e) ==> e.wf() && e.canonical_value() == limbs_value(words@) % pow2(
            bit_length(R::canonical_modulus()),
        ),
{
    proof {
        R::lemma_canonical_identities();
        lemma2_to64();
        vstd::arithmetic::div_mod::lemma_small_mod(R::canonical_modulus(), BigUint::<N>::bound());
    }
    let modulus = R::modulus_canonical();
    let ghost q = R::canonical_modulus();
    proof {
        assert(modulus.canonical_nat() == modulus.value());
    }
    let b = modulus.bits();
    proof {
        if b == 0 {
            assert(false);
        }
        lemma_bit_length(q, b as nat);
        lemma_limb_pow_pow2(N as nat);
        if b as nat > 64 * N {
            lemma_pow2_strictly_increases(64 * N as nat, (b - 1) as nat);
            assert(false);
        }
    }
    let hl: usize = ((b - 1) / 64) as usize;
    let tb: u32 = b - 64 * ((b - 1) / 64);
    let mut limbs = [0u64; N];
    let mut i: usize = 0;
    while i < N
        invariant
            i <= N,
            hl < N,
            1 <= tb <= 64,
            limbs@.len() == N,
            forall|k: int| 0 <= k < i && k < hl ==> limbs@[k] == words@[k],
            i > hl ==> limbs@[hl as int] as nat == (words@[hl as int] as nat) % pow2(tb as nat),
            forall|k: int| hl < k < i ==> limbs@[k] == 0,
        decreases N - i,
    {
        if i < hl {
            limbs[i] = words[i];
        } else if i == hl {
            if tb == 64 {
                limbs[i] = words[i];
                proof {
                    lemma2_to64();
                    vstd::arithmetic::div_mod::lemma_small_mod(words@[i as int] as nat, pow2(64));
                }
            } else {
                assert((1u64 << tb) >= 1) by (bit_vector)
                    requires
                        tb < 64,
                ;
                let mask: u64 = (1u64 << tb) - 1;
                limbs[i] = words[i] & mask;
                proof {
                    let x = words@[i as int];
                    vstd::arithmetic::power2::lemma_pow2_pos(tb as nat);
                    crate::arith::bigint::lemma_shr_limb(x, 0, tb as u64);
                    assert(mask == low_mask(tb as u64));
                    vstd::arithmetic::div_mod::lemma_fundamental_div_mod_converse(
                        x as int,
                        pow2(tb as nat) as int,
                        (x >> (tb as u64)) as int,
                        (x & low_mask(tb as u64)) as int,
                    );
                }
            }
        } else {
            limbs[i] = 0;
        }
        i = i + 1;
    }
    let sample = BigUint { limbs };
    proof {
        lemma_mask_value(words@, limbs@, hl as int, tb as nat);
        assert(64 * hl + tb == b);
    }
    let (_, below) = sample.sub_with_borrow(&modulus);
    if below {
        let r = R::from_canonical(&sample);
        proof {
            assert(sample.canonical_nat() == sample.value());
            vstd::arithmetic::div_mod::lemma_small_mod(sample.value(), q);
        }
        Some(r)
    } else {
        None
    }
}

/// The ternary sample for the draw `choice` in `0..3` in a ring with wide canonical
/// values: `0`, `1`, or `-1 mod q`.
pub fn ternary_large_from_choice<R: LargeCanonicalRing<Canonical = BigUint<N>>, const N: usize>(
    choice: usize,
) -> (r: R)
    requires
        R::params_ok(),
        R::canonical_modulus() < BigUint::<N>::bound(),
        choice < 3,
    ensures
        r.wf(),
        choice == 0 ==> r.canonical_value() == 0,
        choice == 1 ==> r.canonical_value() == 1,
        choice == 2 ==> r.canonical_value() == R::canonical_modulus() - 1,
{
    proof {
        R::lemma_canonical_identities();
        R::lemma_identities_wf();
    }
    match choice {
        0 => R::zero(),
        1 => R::one(),
        _ => {
            let r = encode_signed_large::<R, N>(-1);
            proof {
                vstd::arithmetic::div_mod::lemma_fundamental_div_mod_converse(
                    -1,
                    R::canonical_modulus() as int,
                    -1,
                    R::canonical_modulus() - 1,
                );
            }
            r
        },
    }
}

/// The centered binomial sample `left - right mod q` in a ring with wide canonical
/// values, where `left` and `right` count the heads among two runs of `eta` fair coin
/// flips.
pub fn cbd_large_from_counts<R: LargeCanonicalRing<Canonical = BigUint<N>>, const N: usize>(
    left: u32,
    right: u32,
) -> (r: R)
    requires
        R::params_ok(),
        R::canonical_modulus() < BigUint::<N>::bound(),
    ensures
        r.wf(),
        r.canonical_value() as int == (left as int - right as int) % (R::canonical_modulus() as int),
{
    encode_signed_large::<R, N>((left as i64) - (right as i64))
}

/// Uniform sampler over `[0, q)`.
#[derive(Debug)]
pub struct UniformSampler<R> {
    _marker: PhantomData<R>,
}

impl<R> UniformSampler<R> {
    /// Construct a new sampler.
    pub fn new() -> (s: Self) {
        Self { _marker: PhantomData }
    }
}

/// Uniform sampler over `{-1, 0, 1}` modulo `q`.
#[derive(Debug)]
pub struct TernarySampler<R> {
    _marker: PhantomData<R>,
}

impl<R> TernarySampler<R> {
    /// Construct a new sampler.
    pub fn new() -> (s: Self) {
        Self { _marker: PhantomData }
    }
}

/// Centered binomial sampler with parameter `eta`.
#[derive(Debug)]
pub struct CBDSampler<R> {
    eta: usize,
    _marker: PhantomData<R>,
}

impl<R> CBDSampler<R> {
    /// The configured `eta`.
    pub closed spec fn eta_spec(&self) -> nat {
        self.eta as nat
    }

    /// Construct a new CBD sampler.
    pub fn new(eta: usize) -> (s: Self)
        requires
            eta > 0,
        ensures
            s.eta_spec() == eta,
    {
        Self { eta, _marker: PhantomData }
    }

    /// Return the configured `eta`.
    pub fn eta(&self) -> (r: usize)
        ensures
            r == self.eta_spec(),
    {
        self.eta
    }
}

/// Uniform sampler over `[0, q)` for rings with wide canonical values.
#[derive(Debug)]
pub struct LargeUniformSampler<R> {
    _marker: PhantomData<R>,
}

impl<R> LargeUniformSampler<R> {
    /// Construct a new sampler.
    pub fn new() -> (s: Self) {
        Self { _marker: PhantomData }
    }
}

/// Uniform sampler over `{-1, 0, 1}` modulo `q` for rings with wide canonical values.
#[derive(Debug)]
pub struct LargeTernarySampler<R> {
    _marker: PhantomData<R>,
}

impl<R> LargeTernarySampler<R> {
    /// Construct a new sampler.
    pub fn new() -> (s: Self) {
        Self { _marker: PhantomData }
    }
}

/// Centered binomial sampler with parameter `eta` for rings with wide canonical values.
#[derive(Debug)]
pub struct LargeCBDSampler<R> {
    eta: usize,
    _marker: PhantomData<R>,
}

impl<R> LargeCBDSampler<R> {
    /// The configured `eta`.
    pub closed spec fn eta_spec(&self) -> nat {
        self.eta as nat
    }

    /// Construct a new CBD sampler.
    pub fn new(eta: usize) -> (s: Self)
        requires
            eta > 0,
        ensures
            s.eta_spec() == eta,
    {
        Self { eta, _marker: PhantomData }
    }

    /// Return the configured `eta`.
    pub fn eta(&self) -> (r: usize)
        ensures
            r == self.eta_spec(),
    {
        self.eta
    }
}

} // verus!
