//! Fixed-limb large modular integer rings `Z/MZ` (`M` not necessarily prime), their
//! profiles, and the profiles' validity check.
//!
//! Elements are kept as canonical residues in `[0, M)` and multiplied with Barrett
//! reduction, whatever representation a profile's Montgomery flag asks for; the
//! Montgomery constants are checked by the validity test only.
use crate::arith::bigint::{
    BigUint, array_from_limbs, lemma_array_from_limbs, lemma_limbs_of, lemma_limbs_value_bound,
    lemma_limbs_value_injective, lemma_limbs_value_skip, lemma_limbs_value_take, lemma_limbs_value_zeros,
    limb_pow, limbs_of, limbs_value,
};
use crate::arith::large_modulus::{CanonicalValue, LargeCanonicalRing};
use crate::arith::modular::lemma_mod_ring_laws;
use crate::arith::ring::Ring;
use crate::serialize::{
    CanonicalDeserialize, CanonicalSerialize, SerializationError, append_bytes, byte_pow, le_bytes_to_u64,
    le_encode, le_value, lemma_le_encode, lemma_le_encode_concat, lemma_le_encode_value, lemma_le_value_concat,
    u64_to_le_bytes,
};
use core::marker::PhantomData;
use vstd::arithmetic::div_mod::{
    lemma_add_mod_noop, lemma_fundamental_div_mod, lemma_mod_bound, lemma_mul_mod_noop_right,
    lemma_small_mod,
};
use vstd::prelude::*;

verus! {

/// Compile-time metadata for a fixed-limb large modular integer ring.
pub trait LargeZmProfile<const LIMBS: usize> {
    /// Modulus in little-endian limb order.
    const MODULUS: [u64; LIMBS];
    /// Whether to use Montgomery representation.
    const MONTGOMERY: bool;
    /// `R mod q` in little-endian limb order for the Montgomery representation of one.
    const MONT_ONE: [u64; LIMBS];
    /// `R^2 mod q` in little-endian limb order for Montgomery conversion.
    const MONT_R2: [u64; LIMBS];
    /// `-q^{-1} mod 2^64` for Montgomery reduction.
    const MONT_NEG_INV: u64;
    /// `floor(2^(64 * LIMBS) / q)` for canonical Barrett reduction into Montgomery form.
    const BARRETT_MU: [u64; LIMBS];
}

/// Profile for the Fermat ring `Z/(2^64 + 1)Z`.
pub struct Fermat64Profile;

impl LargeZmProfile<2> for Fermat64Profile {
    // 2^64 + 1
    const MODULUS: [u64; 2] = [1, 1];
    const MONTGOMERY: bool = true;
    // R = 2^128 = 1 mod (2^64 + 1).
    const MONT_ONE: [u64; 2] = [1, 0];
    // R^2 = 1 mod (2^64 + 1).
    const MONT_R2: [u64; 2] = [1, 0];
    // -1 = u64::MAX is the negated inverse of the low limb 1.
    const MONT_NEG_INV: u64 = 0xffff_ffff_ffff_ffff;
    // floor(2^128 / (2^64 + 1)) = 2^64 - 1.
    const BARRETT_MU: [u64; 2] = [0xffff_ffff_ffff_ffff, 0];
}

/// What a profile must satisfy: a modulus of at least 2 and a non-zero Barrett
/// constant; for Montgomery profiles also an odd modulus whose low limb times
/// `mont_neg_inv` is `-1 mod 2^64`, and non-zero `R mod q` and `R^2 mod q`.
pub open spec fn large_zm_profile_valid(
    modulus: Seq<u64>,
    montgomery: bool,
    mont_one: Seq<u64>,
    mont_r2: Seq<u64>,
    mont_neg_inv: u64,
    barrett_mu: Seq<u64>,
) -> bool {
    &&& limbs_value(modulus) >= 2
    &&& limbs_value(barrett_mu) != 0
    &&& montgomery ==> {
        &&& modulus[0] % 2 == 1
        &&& (mont_neg_inv as nat * modulus[0] as nat) % 0x1_0000_0000_0000_0000
            == 0xffff_ffff_ffff_ffff
        &&& limbs_value(mont_one) != 0
        &&& limbs_value(mont_r2) != 0
    }
}

/// A limb sequence denotes zero exactly when every limb is zero.
proof fn lemma_value_zero(s: Seq<u64>)
    ensures
        (limbs_value(s) == 0) == (forall|i: int| 0 <= i < s.len() ==> s[i] == 0),
{
    let z = Seq::new(s.len(), |i: int| 0u64);
    lemma_limbs_value_zeros(z);
    if limbs_value(s) == 0 {
        lemma_limbs_value_injective(s, z);
    }
    if forall|i: int| 0 <= i < s.len() ==> s[i] == 0 {
        lemma_limbs_value_zeros(s);
    }
}

/// A non-empty limb sequence denotes one exactly when its low limb is one and all
/// others are zero.
proof fn lemma_value_one(s: Seq<u64>)
    requires
        s.len() > 0,
    ensures
        (limbs_value(s) == 1) == (s[0] == 1 && forall|i: int| 1 <= i < s.len() ==> s[i] == 0),
{
    lemma_limbs_value_skip(s, 0);
    assert(s.skip(0) =~= s);
    let t = s.skip(1);
    lemma_value_zero(t);
    assert forall|i: int| 1 <= i < s.len() implies s[i] == t[i - 1] by {}
    if forall|i: int| 1 <= i < s.len() ==> s[i] == 0 {
        assert forall|j: int| 0 <= j < t.len() implies t[j] == 0 by {
            assert(s[j + 1] == 0);
        }
    }
    if forall|j: int| 0 <= j < t.len() ==> t[j] == 0 {
        assert forall|i: int| 1 <= i < s.len() implies s[i] == 0 by {
            assert(t[i - 1] == 0);
        }
    }
}

/// Every limb equals `v`.
fn limball_eq<const N: usize>(limbs: &[u64; N], v: u64) -> (b: bool)
    ensures
        b == (forall|i: int| 0 <= i < N ==> limbs@[i] == v),
{
    let mut i: usize = 0;
    while i < N
        invariant
            i <= N,
            limbs@.len() == N,
            forall|j: int| 0 <= j < i ==> limbs@[j] == v,
        decreases N - i,
    {
        if limbs[i] != v {
            return false;
        }
        i += 1;
    }
    true
}

/// The shipped Fermat profile is valid: `M = 2^64 + 1`, `floor(2^128 / M) = 2^64 - 1`,
/// and its Montgomery constants check out.
pub proof fn lemma_fermat64_profile_ok()
    ensures
        LargeZm::<Fermat64Profile, 2>::profile_ok(),
        LargeZm::<Fermat64Profile, 2>::modulus_spec() == 0x1_0000_0000_0000_0001,
{
    let m = <Fermat64Profile as LargeZmProfile<2>>::MODULUS@;
    let mu = <Fermat64Profile as LargeZmProfile<2>>::BARRETT_MU@;
    let one = <Fermat64Profile as LargeZmProfile<2>>::MONT_ONE@;
    let r2 = <Fermat64Profile as LargeZmProfile<2>>::MONT_R2@;
    reveal_with_fuel(limbs_value, 3);
    reveal_with_fuel(limb_pow, 3);
    assert(m.drop_last().drop_last() =~= Seq::<u64>::empty());
    assert(mu.drop_last().drop_last() =~= Seq::<u64>::empty());
    assert(one.drop_last().drop_last() =~= Seq::<u64>::empty());
    assert(r2.drop_last().drop_last() =~= Seq::<u64>::empty());
    assert(m[0] == 1 && m[1] == 1 && m.len() == 2);
    assert(mu[0] == 0xffff_ffff_ffff_ffff && mu[1] == 0 && mu.len() == 2);
    assert(limb_pow(1) == 0x1_0000_0000_0000_0000);
    assert(m.drop_last().len() == 1 && m.drop_last()[0] == 1 && mu.drop_last()[0] == 0xffff_ffff_ffff_ffff);
    assert(limb_pow(0) == 1);
    assert(limbs_value(Seq::<u64>::empty()) == 0);
    assert(limbs_value(m.drop_last()) == 1);
    assert(limbs_value(m) == 0x1_0000_0000_0000_0001);
    assert(limbs_value(mu.drop_last()) == 0xffff_ffff_ffff_ffff);
    assert(limbs_value(mu) == 0xffff_ffff_ffff_ffff);
    assert(limbs_value(one) == 1);
    assert(limbs_value(r2) == 1);
    assert(limb_pow(2) == 0x1_0000_0000_0000_0000_0000_0000_0000_0000);
    vstd::arithmetic::div_mod::lemma_fundamental_div_mod_converse(
        0x1_0000_0000_0000_0000_0000_0000_0000_0000int,
        0x1_0000_0000_0000_0001int,
        0xffff_ffff_ffff_ffffint,
        1int,
    );
    lemma_small_mod(0xffff_ffff_ffff_ffffnat, 0x1_0000_0000_0000_0000nat);
}

/// Statically-checked validity for a [`LargeZmProfile`].
pub fn large_zm_profile_is_valid<const LIMBS: usize>(
    modulus: [u64; LIMBS],
    montgomery: bool,
    mont_one: [u64; LIMBS],
    mont_r2: [u64; LIMBS],
    mont_neg_inv: u64,
    barrett_mu: [u64; LIMBS],
) -> (b: bool)
    ensures
        b == large_zm_profile_valid(
            modulus@,
            montgomery,
            mont_one@,
            mont_r2@,
            mont_neg_inv,
            barrett_mu@,
        ),
{
    proof {
        lemma_value_zero(modulus@);
        lemma_value_zero(barrett_mu@);
        lemma_value_zero(mont_one@);
        lemma_value_zero(mont_r2@);
    }
    // Modulus must be >= 2 (multi-limb comparison).
    if LIMBS == 0 {
        return false;
    }
    proof {
        lemma_value_one(modulus@);
    }
    let mut all_zero = true;
    let mut i: usize = 0;
    while i < LIMBS
        invariant
            i <= LIMBS,
            modulus@.len() == LIMBS,
            all_zero == (forall|j: int| 0 <= j < i ==> modulus@[j] == 0),
        decreases LIMBS - i,
    {
        if modulus[i] != 0 {
            all_zero = false;
        }
        i += 1;
    }
    if all_zero {
        return false;
    }
    // modulus == 1 is also rejected.
    if modulus[0] == 1 {
        let mut rest_zero = true;
        let mut j: usize = 1;
        while j < LIMBS
            invariant
                1 <= j <= LIMBS,
                modulus@.len() == LIMBS,
                rest_zero == (forall|k: int| 1 <= k < j ==> modulus@[k] == 0),
            decreases LIMBS - j,
        {
            if modulus[j] != 0 {
                rest_zero = false;
            }
            j += 1;
        }
        if rest_zero {
            return false;
        }
    }
    if !montgomery {
        // BARRETT_MU must be non-zero for canonical profiles.
        let mut mu_zero = true;
        let mut k: usize = 0;
        while k < LIMBS
            invariant
                k <= LIMBS,
                barrett_mu@.len() == LIMBS,
                mu_zero == (forall|j: int| 0 <= j < k ==> barrett_mu@[j] == 0),
            decreases LIMBS - k,
        {
            if barrett_mu[k] != 0 {
                mu_zero = false;
            }
            k += 1;
        }
        if mu_zero {
            return false;
        }
        return true;
    }
    // Modulus must be odd for Montgomery.
    if modulus[0] & 1 == 0 {
        proof {
            let m0 = modulus[0];
            assert(m0 & 1 == m0 % 2) by (bit_vector);
        }
        return false;
    }
    proof {
        let m0 = modulus[0];
        assert(m0 & 1 == m0 % 2) by (bit_vector);
    }
    // MONT_NEG_INV * MODULUS[0] = -1 mod 2^64 (i.e. the product equals u64::MAX).
    let inv_check = mont_neg_inv.wrapping_mul(modulus[0]);
    proof {
        let a = mont_neg_inv as nat;
        let m0 = modulus[0] as nat;
        vstd::arithmetic::mul::lemma_mul_is_commutative(a as int, m0 as int);
    }
    if inv_check.wrapping_add(1) != 0 {
        return false;
    }
    // Basic Barrett MU sanity: must be non-zero.
    if barrett_mu[LIMBS - 1] == 0 && limball_eq(&barrett_mu, 0) {
        return false;
    }
    // MONT_ONE must be non-zero for odd Montgomery moduli.
    if mont_one[LIMBS - 1] == 0 && limball_eq(&mont_one, 0) {
        return false;
    }
    // MONT_R2 must be non-zero.
    if mont_r2[LIMBS - 1] == 0 && limball_eq(&mont_r2, 0) {
        return false;
    }
    true
}


/// `R - M * floor(R / M)` is `R mod M`: the low half `lo` of `M * floor(R / M)`,
/// subtracted from zero modulo `R`, gives it.
proof fn lemma_r_mod(m: nat, r: nat, lo: nat, hi: nat)
    requires
        2 <= m < r,
        lo < r,
        lo + hi * r == m * (r / m),
    ensures
        (if lo > 0 { r - lo } else { 0int }) == r % m,
{
    lemma_fundamental_div_mod(r as int, m as int);
    lemma_mod_bound(r as int, m as int);
    if hi >= 1 {
        assert(hi * r >= r) by (nonlinear_arith)
            requires
                hi >= 1,
                r > 0,
        ;
        assert(hi == 1) by (nonlinear_arith)
            requires
                hi >= 1,
                hi * r <= r,
                r > 0,
        ;
    } else {
        assert(hi * r == 0) by (nonlinear_arith)
            requires
                hi == 0,
        ;
    }
}

/// One folding step of `lo + hi * R`: `hi * R` becomes `hi * (R mod M)`, written as
/// `p_lo + p_hi * R` and added to `lo` with carry `c`. The residue mod `M` stays, the
/// total drops, and `p_hi + 1` still fits.
proof fn lemma_fold_step(m: nat, r: nat, rm: nat, lo: nat, hi: nat, p_lo: nat, p_hi: nat, new_lo: nat, c: nat)
    requires
        2 <= m < r,
        rm == r % m,
        lo < r,
        1 <= hi < r,
        p_lo + p_hi * r == hi * rm,
        new_lo + c * r == lo + p_lo,
    ensures
        new_lo + (p_hi + c) * r == lo + hi * rm,
        lo + hi * rm < lo + hi * r,
        (lo + hi * rm) % m == (lo + hi * r) % m,
        p_hi + 1 < r,
{
    lemma_mod_bound(r as int, m as int);
    assert((p_hi + c) * r == p_hi * r + c * r) by (nonlinear_arith);
    assert(hi * rm < hi * r) by (nonlinear_arith)
        requires
            hi >= 1,
            rm < r,
    ;
    lemma_mul_mod_noop_right(hi as int, r as int, m as int);
    lemma_add_mod_noop(lo as int, (hi * rm) as int, m as int);
    lemma_add_mod_noop(lo as int, (hi * r) as int, m as int);
    assert(p_hi * r <= (r - 1) * (r - 1)) by (nonlinear_arith)
        requires
            p_hi * r <= hi * rm,
            hi <= r - 1,
            rm <= r - 1,
            rm >= 0,
            hi >= 0,
    ;
    assert(p_hi < r - 1) by (nonlinear_arith)
        requires
            p_hi * r <= (r - 1) * (r - 1),
            r >= 2,
    ;
}

/// Barrett's estimate: with `mu = floor(R / M)` and `q = floor(a * mu / R)` for
/// `a < R`, `q * M` does not exceed `a` and falls short of it by less than `2M`.
proof fn lemma_barrett(m: nat, r: nat, a: nat, mu: nat, lo: nat, q: nat)
    requires
        2 <= m < r,
        mu == r / m,
        a < r,
        lo < r,
        lo + q * r == a * mu,
    ensures
        q * m <= a,
        a < q * m + 2 * m,
{
    lemma_fundamental_div_mod(r as int, m as int);
    lemma_mod_bound(r as int, m as int);
    let rr = r % m;
    assert(m * mu + rr == r);
    assert(q * r * m <= a * mu * m) by (nonlinear_arith)
        requires
            q * r <= a * mu,
    ;
    assert(a * mu * m <= a * r) by (nonlinear_arith)
        requires
            m * mu <= r,
    ;
    assert(q * m <= a) by (nonlinear_arith)
        requires
            q * r * m <= a * r,
            r > 0,
    ;
    assert((q * r + r) * m > a * mu * m) by (nonlinear_arith)
        requires
            q * r + r > a * mu,
            m > 0,
    ;
    assert(a * mu * m >= a * r - a * m) by (nonlinear_arith)
        requires
            m * mu + rr == r,
            rr < m,
    ;
    assert(a * m <= r * m) by (nonlinear_arith)
        requires
            a < r,
    ;
    assert(q * m * r + 2 * m * r > a * r) by (nonlinear_arith)
        requires
            (q * r + r) * m > a * r - a * m,
            a * m <= r * m,
    ;
    assert(a < q * m + 2 * m) by (nonlinear_arith)
        requires
            q * m * r + 2 * m * r > a * r,
            r > 0,
    ;
}

/// A fixed-limb large modular integer (general modulus, not necessarily prime).
pub struct LargeZm<P: LargeZmProfile<LIMBS>, const LIMBS: usize> {
    limbs: [u64; LIMBS],
    _profile: PhantomData<P>,
}

impl<P: LargeZmProfile<LIMBS>, const LIMBS: usize> LargeZm<P, LIMBS> {
    /// The modulus `M`.
    pub open spec fn modulus_spec() -> nat {
        limbs_value(P::MODULUS@)
    }

    /// `R = 2^(64 * LIMBS)`.
    pub open spec fn r_spec() -> nat {
        limb_pow(LIMBS as nat)
    }

    /// A valid profile whose Barrett constant is `floor(R / M)`.
    pub open spec fn profile_ok() -> bool {
        &&& large_zm_profile_valid(
            P::MODULUS@,
            P::MONTGOMERY,
            P::MONT_ONE@,
            P::MONT_R2@,
            P::MONT_NEG_INV,
            P::BARRETT_MU@,
        )
        &&& limbs_value(P::BARRETT_MU@) == Self::r_spec() / Self::modulus_spec()
        &&& 2 * LIMBS <= usize::MAX
    }

    /// The element's canonical value in `[0, M)`.
    pub closed spec fn value(&self) -> nat {
        limbs_value(self.limbs@)
    }

    /// The element with canonical value `v < R`.
    pub closed spec fn from_value(v: nat) -> Self {
        LargeZm {
            limbs: array_from_limbs::<LIMBS>(limbs_of(v, LIMBS as nat), LIMBS as nat),
            _profile: PhantomData,
        }
    }

    /// `from_value(v)` has value `v`.
    proof fn lemma_from_value(v: nat)
        requires
            v < Self::r_spec(),
        ensures
            Self::from_value(v).value() == v,
    {
        lemma_limbs_of(v, LIMBS as nat);
        lemma_array_from_limbs::<LIMBS>(limbs_of(v, LIMBS as nat), LIMBS as nat);
        assert(Self::from_value(v).limbs@ =~= limbs_of(v, LIMBS as nat));
        vstd::arithmetic::div_mod::lemma_small_mod(v, Self::r_spec());
    }

    /// Elements with equal values are equal.
    proof fn lemma_eq_by_value(a: Self, b: Self)
        requires
            a.value() == b.value(),
        ensures
            a == b,
    {
        lemma_limbs_value_injective(a.limbs@, b.limbs@);
        assert(a.limbs =~= b.limbs);
    }

    /// A valid profile has at least one limb.
    proof fn lemma_limbs_pos()
        requires
            Self::profile_ok(),
        ensures
            LIMBS > 0,
    {
        if LIMBS == 0 {
            assert(P::MODULUS@ =~= Seq::<u64>::empty());
        }
    }

    /// The element `value mod M`.
    pub fn from_canonical(value: &BigUint<LIMBS>) -> (r: Self)
        requires
            Self::profile_ok(),
        ensures
            r.wf(),
            r.value() == value.value() % Self::modulus_spec(),
    {
        let reduced = Self::reduce_canonical(value);
        proof {
            Self::lemma_modulus_bounds();
            lemma_mod_bound(value.value() as int, Self::modulus_spec() as int);
        }
        LargeZm { limbs: reduced.limbs, _profile: PhantomData }
    }

    /// The element `val mod M`.
    pub fn from_u64(val: u64) -> (r: Self)
        requires
            Self::profile_ok(),
            LIMBS > 0,
        ensures
            r.wf(),
            r.value() == (val as nat) % Self::modulus_spec(),
    {
        Self::from_canonical(&BigUint::from_u64(val))
    }

    /// The canonical value in `[0, M)`.
    pub fn to_canonical(&self) -> (r: BigUint<LIMBS>)
        ensures
            r.value() == self.value(),
    {
        BigUint { limbs: self.limbs }
    }

    /// The canonical value, if it fits in 64 bits.
    pub fn try_to_u64(&self) -> (r: Option<u64>)
        requires
            LIMBS > 0,
        ensures
            r == (if self.value() < 0x1_0000_0000_0000_0000 {
                Some(self.value() as u64)
            } else {
                None
            }),
    {
        self.to_canonical().try_to_u64()
    }

    /// The element `1`.
    pub fn one() -> (r: Self)
        requires
            Self::profile_ok(),
            LIMBS > 0,
        ensures
            r.wf(),
            r.value() == 1,
    {
        let r = Self::from_u64(1);
        proof {
            Self::lemma_modulus_bounds();
            lemma_small_mod(1, Self::modulus_spec());
        }
        r
    }

    /// The canonical value as a `u64`; it must fit.
    pub fn to_u64(&self) -> (r: u64)
        requires
            LIMBS > 0,
            self.value() < 0x1_0000_0000_0000_0000,
        ensures
            r == self.value(),
    {
        match self.try_to_u64() {
            Some(v) => v,
            None => 0,
        }
    }

    /// The sum of two elements: one addition with carry and at most one
    /// subtraction of `M`.
    pub fn add_canonical(&self, rhs: &Self) -> (r: Self)
        requires
            self.wf(),
            rhs.wf(),
        ensures
            r.wf(),
            r.value() == (self.value() + rhs.value()) % Self::modulus_spec(),
    {
        let modulus = Self::modulus_biguint();
        let a = BigUint { limbs: self.limbs };
        let b = BigUint { limbs: rhs.limbs };
        let (sum, carry) = a.add_with_carry(&b);
        let ghost m = Self::modulus_spec();
        let ghost t = self.value() + rhs.value();
        proof {
            Self::lemma_modulus_bounds();
            lemma_limbs_value_bound(sum.limbs@);
        }
        let reduced = if carry {
            let (d, _) = sum.sub_with_borrow(&modulus);
            d
        } else {
            sum.sub_if_ge(&modulus)
        };
        proof {
            if t >= m {
                vstd::arithmetic::div_mod::lemma_mod_sub_multiples_vanish(t as int, m as int);
                lemma_small_mod((t - m) as nat, m);
            } else {
                lemma_small_mod(t, m);
            }
        }
        LargeZm { limbs: reduced.limbs, _profile: PhantomData }
    }

    /// The difference of two elements: one subtraction with borrow and, on a borrow,
    /// one addition of `M`.
    pub fn sub_canonical(&self, rhs: &Self) -> (r: Self)
        requires
            self.wf(),
            rhs.wf(),
        ensures
            r.wf(),
            r.value() == (self.value() + Self::modulus_spec() - rhs.value()) as nat % Self::modulus_spec(),
    {
        let modulus = Self::modulus_biguint();
        let a = BigUint { limbs: self.limbs };
        let b = BigUint { limbs: rhs.limbs };
        let (diff, borrow) = a.sub_with_borrow(&b);
        let ghost m = Self::modulus_spec();
        let ghost t = (self.value() + m - rhs.value()) as nat;
        proof {
            Self::lemma_modulus_bounds();
            lemma_limbs_value_bound(diff.limbs@);
        }
        let reduced = if borrow {
            let (s, _) = diff.add_with_carry(&modulus);
            proof {
                lemma_limbs_value_bound(s.limbs@);
            }
            s
        } else {
            diff
        };
        proof {
            if t >= m {
                vstd::arithmetic::div_mod::lemma_mod_sub_multiples_vanish(t as int, m as int);
                lemma_small_mod((t - m) as nat, m);
            } else {
                lemma_small_mod(t, m);
            }
        }
        LargeZm { limbs: reduced.limbs, _profile: PhantomData }
    }

    /// The product of two elements.
    pub fn mul_canonical(&self, rhs: &Self) -> (r: Self)
        requires
            self.wf(),
            rhs.wf(),
        ensures
            r.wf(),
            r.value() == (self.value() * rhs.value()) % Self::modulus_spec(),
    {
        let limbs = Self::canonical_mul_limbs(&self.limbs, &rhs.limbs);
        proof {
            Self::lemma_modulus_bounds();
            lemma_mod_bound((self.value() * rhs.value()) as int, Self::modulus_spec() as int);
        }
        LargeZm { limbs, _profile: PhantomData }
    }

    fn modulus_biguint() -> (r: BigUint<LIMBS>)
        ensures
            r.value() == Self::modulus_spec(),
    {
        BigUint { limbs: P::MODULUS }
    }

    fn barrett_mu_biguint() -> (r: BigUint<LIMBS>)
        ensures
            r.value() == limbs_value(P::BARRETT_MU@),
    {
        BigUint { limbs: P::BARRETT_MU }
    }

    /// `M < R` and `M >= 2` under a valid profile.
    proof fn lemma_modulus_bounds()
        requires
            Self::profile_ok(),
        ensures
            2 <= Self::modulus_spec() < Self::r_spec(),
    {
        lemma_limbs_value_bound(P::MODULUS@);
    }

    /// Reduce `value` modulo `M` by one Barrett estimate and at most two
    /// subtractions of `M`.
    pub fn reduce_canonical(value: &BigUint<LIMBS>) -> (r: BigUint<LIMBS>)
        requires
            Self::profile_ok(),
        ensures
            r.value() == value.value() % Self::modulus_spec(),
    {
        let modulus = Self::modulus_biguint();
        let ghost m = Self::modulus_spec();
        let ghost rr = Self::r_spec();
        proof {
            Self::lemma_modulus_bounds();
            lemma_limbs_value_bound(value.limbs@);
        }
        let (_, below) = value.sub_with_borrow(&modulus);
        if below {
            proof {
                lemma_small_mod(value.value(), m);
            }
            return *value;
        }
        let mu = Self::barrett_mu_biguint();
        let (q_lo, quotient) = value.widening_mul(&mu);
        proof {
            lemma_limbs_value_bound(q_lo.limbs@);
            lemma_barrett(m, rr, value.value(), mu.value(), q_lo.value(), quotient.value());
        }
        let (qm, qm_hi) = modulus.widening_mul(&quotient);
        proof {
            lemma_limbs_value_bound(qm.limbs@);
            let q = quotient.value();
            assert(m * q == q * m) by (nonlinear_arith);
            if qm_hi.value() > 0 {
                assert(qm_hi.value() * rr >= rr) by (nonlinear_arith)
                    requires
                        qm_hi.value() >= 1,
                        rr > 0,
                ;
            }
            assert(qm_hi.value() * rr == 0) by (nonlinear_arith)
                requires
                    qm_hi.value() * rr < rr,
                    rr > 0,
            ;
        }
        let (reduced, _borrow) = value.sub_with_borrow(&qm);
        let reduced = reduced.sub_if_ge(&modulus).sub_if_ge(&modulus);
        proof {
            let a = value.value();
            let q = quotient.value();
            let d = (a - q * m) as nat;
            assert(a == d + m * q) by (nonlinear_arith)
                requires
                    d == a - q * m,
            ;
            vstd::arithmetic::div_mod::lemma_mod_multiples_vanish(q as int, d as int, m as int);
            if d >= m {
                vstd::arithmetic::div_mod::lemma_mod_sub_multiples_vanish(d as int, m as int);
                if d >= 2 * m {
                } else {
                    lemma_small_mod((d - m) as nat, m);
                }
            } else {
                lemma_small_mod(d, m);
            }
        }
        reduced
    }

    /// `lhs * rhs mod M` for canonical operands, by folding the high half of the
    /// double-width product with `R mod M` and a final Barrett reduction.
    pub fn canonical_mul_limbs(lhs: &[u64; LIMBS], rhs: &[u64; LIMBS]) -> (r: [u64; LIMBS])
        requires
            Self::profile_ok(),
            limbs_value(lhs@) < Self::modulus_spec(),
            limbs_value(rhs@) < Self::modulus_spec(),
        ensures
            limbs_value(r@) == (limbs_value(lhs@) * limbs_value(rhs@)) % Self::modulus_spec(),
    {
        let ghost m = Self::modulus_spec();
        let ghost rr = Self::r_spec();
        proof {
            Self::lemma_modulus_bounds();
        }
        let a = BigUint { limbs: *lhs };
        let b = BigUint { limbs: *rhs };
        let (lo, hi) = a.widening_mul(&b);
        let modulus = Self::modulus_biguint();
        let barrett_mu = Self::barrett_mu_biguint();

        // r_mod = R mod M = R - M * mu, the R-complement of the low half of M * mu.
        let (mu_prod_lo, mu_prod_hi) = modulus.widening_mul(&barrett_mu);
        let (r_mod, _) = BigUint::<LIMBS>::zero().sub_with_borrow(&mu_prod_lo);
        proof {
            lemma_limbs_value_bound(mu_prod_lo.limbs@);
            lemma_r_mod(m, rr, mu_prod_lo.value(), mu_prod_hi.value());
            lemma_mod_bound(rr as int, m as int);
        }
        let ghost product = limbs_value(lhs@) * limbs_value(rhs@);
        let mut acc_lo = lo;
        let mut acc_hi = hi;
        proof {
            lemma_limbs_value_bound(acc_lo.limbs@);
            lemma_limbs_value_bound(acc_hi.limbs@);
        }
        while !acc_hi.is_zero()
            invariant
                Self::profile_ok(),
                2 <= m < rr,
                m == Self::modulus_spec(),
                rr == Self::r_spec(),
                r_mod.value() == rr % m,
                acc_lo.value() < rr,
                acc_hi.value() < rr,
                (acc_lo.value() + acc_hi.value() * rr) % m == product % m,
            decreases acc_lo.value() + acc_hi.value() * rr,
        {
            let (p_lo, p_hi) = acc_hi.widening_mul(&r_mod);
            let (new_lo, carry) = acc_lo.add_with_carry(&p_lo);
            proof {
                lemma_limbs_value_bound(p_lo.limbs@);
                lemma_limbs_value_bound(new_lo.limbs@);
                lemma_fold_step(
                    m,
                    rr,
                    r_mod.value(),
                    acc_lo.value(),
                    acc_hi.value(),
                    p_lo.value(),
                    p_hi.value(),
                    new_lo.value(),
                    if carry { 1 } else { 0 },
                );
            }
            let ghost old_total = acc_lo.value() + acc_hi.value() * rr;
            acc_lo = new_lo;
            acc_hi = if carry {
                let (s, c) = p_hi.add_small(1);
                proof {
                    if c {
                        assert(s.value() + rr >= rr);
                    }
                }
                s
            } else {
                p_hi
            };
            proof {
                lemma_limbs_value_bound(acc_hi.limbs@);
            }
        }
        proof {
            assert(acc_hi.value() * rr == 0) by (nonlinear_arith)
                requires
                    acc_hi.value() == 0,
            ;
        }
        let res = Self::reduce_canonical(&acc_lo);
        proof {
            vstd::arithmetic::div_mod::lemma_mod_twice(product as int, m as int);
        }
        res.limbs
    }
}


impl<P: LargeZmProfile<LIMBS>, const LIMBS: usize> Clone for LargeZm<P, LIMBS> {
    fn clone(&self) -> (r: Self)
        ensures
            r == *self,
    {
        *self
    }
}

impl<P: LargeZmProfile<LIMBS>, const LIMBS: usize> Copy for LargeZm<P, LIMBS> {

}

impl<P: LargeZmProfile<LIMBS>, const LIMBS: usize> LargeZm<P, LIMBS> {
    /// The ring operations on values: sums, differences, products and negations
    /// of valid elements are valid, with the values of arithmetic modulo `M`.
    proof fn lemma_ops(a: Self, b: Self)
        requires
            a.wf(),
            b.wf(),
        ensures
            <Self as Ring>::add_spec(a, b).wf(),
            <Self as Ring>::sub_spec(a, b).wf(),
            <Self as Ring>::mul_spec(a, b).wf(),
            <Self as Ring>::neg_spec(a).wf(),
            <Self as Ring>::add_spec(a, b).value() == (a.value() + b.value()) % Self::modulus_spec(),
            <Self as Ring>::sub_spec(a, b).value() as int == (a.value() - b.value()) % (Self::modulus_spec() as int),
            <Self as Ring>::mul_spec(a, b).value() == (a.value() * b.value()) % Self::modulus_spec(),
            <Self as Ring>::neg_spec(a).value() as int == (Self::modulus_spec() - a.value()) % (Self::modulus_spec() as int),
    {
        Self::lemma_modulus_bounds();
        let m = Self::modulus_spec() as int;
        lemma_mod_ring_laws(a.value() as int, b.value() as int, 0, m);
        Self::lemma_from_value((a.value() + b.value()) % Self::modulus_spec());
        Self::lemma_from_value(((a.value() - b.value()) % m) as nat);
        Self::lemma_from_value((a.value() * b.value()) % Self::modulus_spec());
        Self::lemma_from_value(((m - a.value()) % m) as nat);
    }

    /// The identities: `0` and `1` are valid with values `0` and `1`.
    proof fn lemma_identities()
        requires
            Self::profile_ok(),
        ensures
            <Self as Ring>::zero_spec().wf(),
            <Self as Ring>::one_spec().wf(),
            <Self as Ring>::zero_spec().value() == 0,
            <Self as Ring>::one_spec().value() == 1,
    {
        Self::lemma_modulus_bounds();
        Self::lemma_from_value(0);
        Self::lemma_from_value(1);
    }
}

impl<P: LargeZmProfile<LIMBS>, const LIMBS: usize> Ring for LargeZm<P, LIMBS> {
    open spec fn params_ok() -> bool {
        Self::profile_ok()
    }

    closed spec fn wf(self) -> bool {
        Self::profile_ok() && limbs_value(self.limbs@) < Self::modulus_spec()
    }

    closed spec fn zero_spec() -> Self {
        Self::from_value(0)
    }

    closed spec fn one_spec() -> Self {
        Self::from_value(1)
    }

    closed spec fn add_spec(a: Self, b: Self) -> Self {
        Self::from_value((a.value() + b.value()) % Self::modulus_spec())
    }

    closed spec fn sub_spec(a: Self, b: Self) -> Self {
        Self::from_value(((a.value() - b.value()) % (Self::modulus_spec() as int)) as nat)
    }

    closed spec fn mul_spec(a: Self, b: Self) -> Self {
        Self::from_value((a.value() * b.value()) % Self::modulus_spec())
    }

    closed spec fn neg_spec(a: Self) -> Self {
        Self::from_value(((Self::modulus_spec() - a.value()) % (Self::modulus_spec() as int)) as nat)
    }

    proof fn lemma_wf_params(a: Self) {
    }

    proof fn lemma_identities_wf() {
        Self::lemma_identities();
    }

    proof fn lemma_closed(a: Self, b: Self) {
        Self::lemma_ops(a, b);
    }

    proof fn lemma_add_laws(a: Self, b: Self, c: Self) {
        Self::lemma_identities();
        let m = Self::modulus_spec() as int;
        lemma_mod_ring_laws(a.value() as int, b.value() as int, c.value() as int, m);
        Self::lemma_ops(a, b);
        Self::lemma_ops(b, a);
        Self::lemma_ops(b, c);
        Self::lemma_ops(Self::add_spec(a, b), c);
        Self::lemma_ops(a, Self::add_spec(b, c));
        Self::lemma_ops(a, Self::zero_spec());
        Self::lemma_ops(a, Self::neg_spec(a));
        Self::lemma_ops(a, Self::neg_spec(b));
        Self::lemma_ops(b, b);
        Self::lemma_eq_by_value(Self::add_spec(a, b), Self::add_spec(b, a));
        Self::lemma_eq_by_value(
            Self::add_spec(Self::add_spec(a, b), c),
            Self::add_spec(a, Self::add_spec(b, c)),
        );
        Self::lemma_eq_by_value(Self::add_spec(a, Self::zero_spec()), a);
        Self::lemma_eq_by_value(Self::add_spec(a, Self::neg_spec(a)), Self::zero_spec());
        Self::lemma_eq_by_value(Self::sub_spec(a, b), Self::add_spec(a, Self::neg_spec(b)));
    }

    proof fn lemma_mul_laws(a: Self, b: Self, c: Self) {
        Self::lemma_identities();
        let m = Self::modulus_spec() as int;
        lemma_mod_ring_laws(a.value() as int, b.value() as int, c.value() as int, m);
        Self::lemma_ops(a, b);
        Self::lemma_ops(b, a);
        Self::lemma_ops(b, c);
        Self::lemma_ops(a, c);
        Self::lemma_ops(Self::mul_spec(a, b), c);
        Self::lemma_ops(a, Self::mul_spec(b, c));
        Self::lemma_ops(a, Self::one_spec());
        Self::lemma_ops(a, Self::zero_spec());
        Self::lemma_ops(a, Self::add_spec(b, c));
        Self::lemma_ops(Self::mul_spec(a, b), Self::mul_spec(a, c));
        Self::lemma_eq_by_value(Self::mul_spec(a, b), Self::mul_spec(b, a));
        Self::lemma_eq_by_value(
            Self::mul_spec(Self::mul_spec(a, b), c),
            Self::mul_spec(a, Self::mul_spec(b, c)),
        );
        Self::lemma_eq_by_value(Self::mul_spec(a, Self::one_spec()), a);
        Self::lemma_eq_by_value(Self::mul_spec(a, Self::zero_spec()), Self::zero_spec());
        Self::lemma_eq_by_value(
            Self::mul_spec(a, Self::add_spec(b, c)),
            Self::add_spec(Self::mul_spec(a, b), Self::mul_spec(a, c)),
        );
    }

    fn zero() -> (r: Self) {
        proof {
            Self::lemma_limbs_pos();
            Self::lemma_identities();
            Self::lemma_modulus_bounds();
        }
        let r = Self::from_u64(0);
        proof {
            lemma_small_mod(0, Self::modulus_spec());
            Self::lemma_eq_by_value(r, Self::zero_spec());
        }
        r
    }

    fn one() -> (r: Self) {
        proof {
            Self::lemma_limbs_pos();
            Self::lemma_identities();
            Self::lemma_modulus_bounds();
        }
        let r = Self::from_u64(1);
        proof {
            lemma_small_mod(1, Self::modulus_spec());
            Self::lemma_eq_by_value(r, Self::one_spec());
        }
        r
    }

    fn is_zero(&self) -> (b: bool) {
        proof {
            Self::lemma_identities();
            if self.value() == 0 {
                Self::lemma_eq_by_value(*self, Self::zero_spec());
            }
        }
        self.to_canonical().is_zero()
    }

    fn is_one(&self) -> (b: bool) {
        proof {
            Self::lemma_limbs_pos();
            Self::lemma_identities();
            if self.value() == 1 {
                Self::lemma_eq_by_value(*self, Self::one_spec());
            }
        }
        let one = BigUint::<LIMBS>::one();
        let (diff, borrow) = self.to_canonical().sub_with_borrow(&one);
        !borrow && diff.is_zero()
    }

    fn double(&self) -> (r: Self) {
        Self::add_ref(self, self)
    }

    fn square(&self) -> (r: Self) {
        Self::mul_ref(self, self)
    }

    fn add_ref(a: &Self, b: &Self) -> (r: Self) {
        let r = a.add_canonical(b);
        proof {
            Self::lemma_ops(*a, *b);
            Self::lemma_eq_by_value(r, Self::add_spec(*a, *b));
        }
        r
    }

    fn sub_ref(a: &Self, b: &Self) -> (r: Self) {
        let r = a.sub_canonical(b);
        proof {
            Self::lemma_ops(*a, *b);
            let m = Self::modulus_spec() as int;
            vstd::arithmetic::div_mod::lemma_mod_multiples_vanish(1, a.value() - b.value(), m);
            assert(m * 1 + (a.value() - b.value()) == a.value() + m - b.value());
            Self::lemma_eq_by_value(r, Self::sub_spec(*a, *b));
        }
        r
    }

    fn mul_ref(a: &Self, b: &Self) -> (r: Self) {
        let r = a.mul_canonical(b);
        proof {
            Self::lemma_ops(*a, *b);
            Self::lemma_eq_by_value(r, Self::mul_spec(*a, *b));
        }
        r
    }

    fn neg_ref(a: &Self) -> (r: Self) {
        let z = <Self as Ring>::zero();
        let r = z.sub_canonical(a);
        proof {
            Self::lemma_identities();
            Self::lemma_ops(*a, *a);
            Self::lemma_eq_by_value(r, Self::neg_spec(*a));
        }
        r
    }
}

impl<P: LargeZmProfile<LIMBS>, const LIMBS: usize> LargeCanonicalRing for LargeZm<P, LIMBS> {
    type Canonical = BigUint<LIMBS>;

    open spec fn canonical_modulus() -> nat {
        Self::modulus_spec()
    }

    open spec fn canonical_value(self) -> nat {
        self.value()
    }

    proof fn lemma_canonical(a: Self, b: Self) {
        Self::lemma_modulus_bounds();
        Self::lemma_ops(a, b);
        if a.value() == b.value() {
            Self::lemma_eq_by_value(a, b);
        }
    }

    proof fn lemma_modulus_fits() {
        Self::lemma_modulus_bounds();
        assert(Self::r_spec() == <BigUint<LIMBS> as CanonicalValue>::canonical_bound());
    }

    proof fn lemma_canonical_identities() {
        Self::lemma_modulus_bounds();
        Self::lemma_identities();
    }

    fn modulus_canonical() -> (m: BigUint<LIMBS>) {
        proof {
            Self::lemma_modulus_bounds();
            lemma_small_mod(Self::modulus_spec(), Self::r_spec());
        }
        Self::modulus_biguint()
    }

    fn from_small_u64(v: u64) -> (r: Self) {
        proof {
            Self::lemma_limbs_pos();
        }
        Self::from_u64(v)
    }

    fn from_canonical(c: &BigUint<LIMBS>) -> (r: Self) {
        Self::from_canonical(c)
    }

    fn to_canonical(&self) -> (c: BigUint<LIMBS>) {
        LargeZm::to_canonical(self)
    }

    fn try_to_u64(&self) -> (r: Option<u64>) {
        proof {
            Self::lemma_limbs_pos();
        }
        LargeZm::try_to_u64(self)
    }

    fn try_to_u128(&self) -> (r: Option<u128>) {
        self.to_canonical().try_to_u128()
    }
}



/// `256^(8 i) = 2^(64 i)`: eight bytes make a limb.
pub(crate) proof fn lemma_byte_pow_limbs(i: nat)
    ensures
        byte_pow(8 * i) == limb_pow(i),
    decreases i,
{
    if i > 0 {
        lemma_byte_pow_limbs((i - 1) as nat);
        lemma_byte_pow_split(8 * ((i - 1) as nat), 8);
        reveal_with_fuel(byte_pow, 9);
        assert(8 * ((i - 1) as nat) + 8 == 8 * i);
    }
}

/// `256^(a + b) = 256^a * 256^b`.
proof fn lemma_byte_pow_split(a: nat, b: nat)
    ensures
        byte_pow(a + b) == byte_pow(a) * byte_pow(b),
    decreases a,
{
    if a > 0 {
        lemma_byte_pow_split((a - 1) as nat, b);
        assert((a - 1) as nat + b + 1 == a + b);
        assert(byte_pow(a + b) == 256 * byte_pow(((a - 1) as nat + b) as nat));
        assert(256 * (byte_pow((a - 1) as nat) * byte_pow(b)) == (256 * byte_pow((a - 1) as nat)) * byte_pow(b))
            by (nonlinear_arith);
    } else {
        assert(byte_pow(0) == 1);
    }
}

/// An `n`-byte encoding sees the value only modulo `256^n`.
proof fn lemma_le_encode_mod(x: nat, n: nat)
    ensures
        le_encode(x, n) == le_encode(x % byte_pow(n), n),
{
    lemma_le_encode(x, n);
    lemma_le_encode_value(le_encode(x, n));
}

/// The encoding of the first `i + 1` limbs is that of the first `i` limbs followed by
/// the eight bytes of limb `i`.
proof fn lemma_limbs_encode_step(s: Seq<u64>, i: nat)
    requires
        i < s.len(),
    ensures
        le_encode(limbs_value(s.take(i as int + 1)), 8 * (i + 1)) == le_encode(limbs_value(s.take(i as int)), 8 * i)
            + le_encode(s[i as int] as nat, 8),
{
    let lo = limbs_value(s.take(i as int));
    let hi = s[i as int] as nat;
    let p = limb_pow(i);
    let v = limbs_value(s.take(i as int + 1));
    lemma_limbs_value_take(s, i as int);
    assert(v == lo + hi * p);
    lemma_limbs_value_bound(s.take(i as int));
    crate::arith::bigint::lemma_limb_pow(i);
    lemma_byte_pow_limbs(i);
    assert(8 * (i + 1) == 8 * i + 8);
    lemma_le_encode_concat(v, 8 * i, 8);
    lemma_fundamental_div_mod(v as int, p as int);
    vstd::arithmetic::div_mod::lemma_fundamental_div_mod_converse(v as int, p as int, hi as int, lo as int);
    lemma_le_encode_mod(v, 8 * i);
    lemma_le_encode_mod(lo, 8 * i);
    lemma_small_mod(lo, p);
}

/// Reading `LIMBS` little-endian 8-byte words gives the value of the first
/// `8 * LIMBS` bytes.
proof fn lemma_limbs_read_step(d: Seq<u8>, s: Seq<u64>, i: nat)
    requires
        i < s.len(),
        8 * (i + 1) <= d.len(),
        limbs_value(s.take(i as int)) == le_value(d.subrange(0, 8 * i as int)),
        s[i as int] as nat == le_value(d.subrange(8 * i as int, (8 * i + 8) as int)),
    ensures
        limbs_value(s.take(i as int + 1)) == le_value(d.subrange(0, 8 * (i + 1) as int)),
{
    lemma_limbs_value_take(s, i as int);
    assert(d.subrange(0, 8 * (i + 1) as int) =~= d.subrange(0, 8 * i as int) + d.subrange(8 * i as int, (8 * i + 8) as int));
    lemma_le_value_concat(d.subrange(0, 8 * i as int), d.subrange(8 * i as int, (8 * i + 8) as int));
    lemma_byte_pow_limbs(i);
    assert(limb_pow(i) * (s[i as int] as nat) == (s[i as int] as nat) * limb_pow(i)) by (nonlinear_arith);
}

/// Appends the `8 * N` little-endian bytes of the limbs' value to `buf`.
pub(crate) fn append_limbs_le<const N: usize>(limbs: &[u64; N], buf: &mut Vec<u8>)
    requires
        8 * N <= usize::MAX,
    ensures
        final(buf)@ == old(buf)@ + le_encode(limbs_value(limbs@), 8 * N as nat),
{
    let ghost start = buf@;
    let mut i: usize = 0;
    proof {
        assert(limbs@.take(0) =~= Seq::<u64>::empty());
        assert(le_encode(0, 0) =~= Seq::<u8>::empty());
        assert(buf@ =~= start + le_encode(limbs_value(limbs@.take(0)), 0));
    }
    while i < N
        invariant
            i <= N,
            8 * N <= usize::MAX,
            limbs@.len() == N,
            buf@ == start + le_encode(limbs_value(limbs@.take(i as int)), 8 * i as nat),
        decreases N - i,
    {
        let bytes = u64_to_le_bytes(limbs[i], 8);
        proof {
            lemma_limbs_encode_step(limbs@, i as nat);
        }
        append_bytes(buf, bytes.as_slice());
        proof {
            assert(buf@ =~= start + le_encode(limbs_value(limbs@.take(i as int + 1)), 8 * (i + 1) as nat));
        }
        i = i + 1;
    }
    proof {
        assert(limbs@.take(N as int) =~= limbs@);
    }
}

/// Reads `N` little-endian 8-byte limbs from the front of `data`.
pub(crate) fn read_limbs_le<const N: usize>(data: &[u8]) -> (r: BigUint<N>)
    requires
        8 * N <= data@.len(),
    ensures
        r.value() == le_value(data@.subrange(0, 8 * N as int)),
{
    let mut limbs = [0u64; N];
    let mut i: usize = 0;
    proof {
        assert(data@.len() == data.len());
        assert(limbs@.take(0) =~= Seq::<u64>::empty());
        assert(data@.subrange(0, 0) =~= Seq::<u8>::empty());
    }
    while i < N
        invariant
            i <= N,
            8 * N <= data@.len(),
            8 * N <= usize::MAX,
            limbs@.len() == N,
            limbs_value(limbs@.take(i as int)) == le_value(data@.subrange(0, 8 * i as int)),
        decreases N - i,
    {
        let w = le_bytes_to_u64(data, 8 * i, 8);
        let ghost prev = limbs@;
        limbs[i] = w;
        proof {
            assert(limbs@.take(i as int) =~= prev.take(i as int));
            lemma_limbs_read_step(data@, limbs@, i as nat);
        }
        i = i + 1;
    }
    proof {
        assert(limbs@.take(N as int) =~= limbs@);
    }
    BigUint { limbs }
}

impl<const N: usize> CanonicalSerialize for BigUint<N> {
    /// The value in `8 * N` little-endian bytes.
    open spec fn encoding(&self) -> Seq<u8> {
        le_encode(self.value(), 8 * N as nat)
    }

    open spec fn can_encode(&self) -> bool {
        8 * N <= usize::MAX
    }

    fn serialized_size(&self) -> (r: usize) {
        proof {
            lemma_le_encode(self.value(), 8 * N as nat);
        }
        8 * N
    }

    fn serialize_into(&self, buf: &mut Vec<u8>) -> (r: Result<(), SerializationError>) {
        append_limbs_le(&self.limbs, buf);
        Ok(())
    }
}

impl<const N: usize> CanonicalDeserialize for BigUint<N> {
    /// `data` starts with `8 * N` bytes whose value is the value of `v`.
    open spec fn decodes(data: Seq<u8>, v: Self, n: nat) -> bool {
        &&& n == 8 * N
        &&& 8 * N <= usize::MAX
        &&& n <= data.len()
        &&& v.value() == le_value(data.subrange(0, n as int))
    }

    open spec fn is_short(data: Seq<u8>) -> bool {
        data.len() < 8 * N
    }

    open spec fn decode_ready() -> bool {
        8 * N <= usize::MAX
    }

    proof fn lemma_decodes_unique(data: Seq<u8>, v1: Self, n1: nat, v2: Self, n2: nat) {
    }

    proof fn lemma_decodes_not_short(data: Seq<u8>, v: Self, n: nat) {
    }

    proof fn lemma_decodes_prefix(data: Seq<u8>, v: Self, n: nat, rest: Seq<u8>) {
        let head = data.subrange(0, n as int);
        assert((head + rest).subrange(0, n as int) =~= head);
        lemma_le_encode_value(head);
    }

    proof fn lemma_round_trip(v: Self, rest: Seq<u8>) {
        let n = 8 * N as nat;
        let e = le_encode(v.value(), n);
        lemma_le_encode(v.value(), n);
        assert((e + rest).subrange(0, n as int) =~= e);
        lemma_byte_pow_limbs(N as nat);
        lemma_limbs_value_bound(v.limbs@);
        lemma_small_mod(v.value(), byte_pow(n));
    }

    fn deserialize(data: &[u8]) -> (r: Result<(Self, usize), SerializationError>) {
        let n = 8 * N;
        if data.len() < n {
            proof {
                assert(Self::is_short(data@));
            }
            return Err(SerializationError::UnexpectedEnd);
        }
        let value = read_limbs_le::<N>(data);
        Ok((value, n))
    }
}

impl<P: LargeZmProfile<LIMBS>, const LIMBS: usize> CanonicalSerialize for LargeZm<P, LIMBS> {
    /// The canonical value in `8 * LIMBS` little-endian bytes.
    open spec fn encoding(&self) -> Seq<u8> {
        le_encode(self.value(), 8 * LIMBS as nat)
    }

    open spec fn can_encode(&self) -> bool {
        self.wf() && 8 * LIMBS <= usize::MAX
    }

    fn serialized_size(&self) -> (r: usize) {
        proof {
            lemma_le_encode(self.value(), 8 * LIMBS as nat);
        }
        8 * LIMBS
    }

    fn serialize_into(&self, buf: &mut Vec<u8>) -> (r: Result<(), SerializationError>) {
        append_limbs_le(&self.limbs, buf);
        Ok(())
    }
}

impl<P: LargeZmProfile<LIMBS>, const LIMBS: usize> CanonicalDeserialize for LargeZm<P, LIMBS> {
    /// `data` starts with `8 * LIMBS` bytes whose value is below `M` and is the value
    /// of `v`.
    open spec fn decodes(data: Seq<u8>, v: Self, n: nat) -> bool {
        &&& n == 8 * LIMBS
        &&& 8 * LIMBS <= usize::MAX
        &&& n <= data.len()
        &&& le_value(data.subrange(0, n as int)) < Self::modulus_spec()
        &&& v.wf()
        &&& v.value() == le_value(data.subrange(0, n as int))
    }

    open spec fn is_short(data: Seq<u8>) -> bool {
        data.len() < 8 * LIMBS
    }

    open spec fn decode_ready() -> bool {
        Self::profile_ok() && 8 * LIMBS <= usize::MAX
    }

    proof fn lemma_decodes_unique(data: Seq<u8>, v1: Self, n1: nat, v2: Self, n2: nat) {
    }

    proof fn lemma_decodes_not_short(data: Seq<u8>, v: Self, n: nat) {
    }

    proof fn lemma_decodes_prefix(data: Seq<u8>, v: Self, n: nat, rest: Seq<u8>) {
        let head = data.subrange(0, n as int);
        assert((head + rest).subrange(0, n as int) =~= head);
        lemma_le_encode_value(head);
    }

    proof fn lemma_round_trip(v: Self, rest: Seq<u8>) {
        let n = 8 * LIMBS as nat;
        let e = le_encode(v.value(), n);
        lemma_le_encode(v.value(), n);
        assert((e + rest).subrange(0, n as int) =~= e);
        lemma_byte_pow_limbs(LIMBS as nat);
        Self::lemma_modulus_bounds();
        lemma_small_mod(v.value(), byte_pow(n));
    }

    fn deserialize(data: &[u8]) -> (r: Result<(Self, usize), SerializationError>) {
        let n = 8 * LIMBS;
        if data.len() < n {
            proof {
                assert(Self::is_short(data@));
            }
            return Err(SerializationError::UnexpectedEnd);
        }
        proof {
            assert(!Self::is_short(data@));
        }
        let value = read_limbs_le::<LIMBS>(data);
        let (_, below) = value.sub_with_borrow(&Self::modulus_biguint());
        if !below {
            proof {
                assert(!Self::is_short(data@));
            }
            return Err(SerializationError::InvalidData("value is not below the modulus".to_owned()));
        }
        let v = Self::from_canonical(&value);
        proof {
            lemma_small_mod(value.value(), Self::modulus_spec());
        }
        Ok((v, n))
    }
}

impl<P: LargeZmProfile<LIMBS>, const LIMBS: usize> core::ops::Add for LargeZm<P, LIMBS> {
    type Output = Self;

    fn add(self, rhs: Self) -> (r: Self)
        ensures
            r == <Self as Ring>::add_spec(self, rhs),
            r.wf(),
    {
        <Self as Ring>::add_ref(&self, &rhs)
    }
}

impl<P: LargeZmProfile<LIMBS>, const LIMBS: usize> vstd::std_specs::ops::AddSpecImpl for LargeZm<P, LIMBS> {
    open spec fn obeys_add_spec() -> bool {
        false
    }

    open spec fn add_req(self, rhs: Self) -> bool {
        self.wf() && rhs.wf()
    }

    open spec fn add_spec(self, rhs: Self) -> Self {
        <Self as Ring>::add_spec(self, rhs)
    }
}

impl<P: LargeZmProfile<LIMBS>, const LIMBS: usize> core::ops::Sub for LargeZm<P, LIMBS> {
    type Output = Self;

    fn sub(self, rhs: Self) -> (r: Self)
        ensures
            r == <Self as Ring>::sub_spec(self, rhs),
            r.wf(),
    {
        <Self as Ring>::sub_ref(&self, &rhs)
    }
}

impl<P: LargeZmProfile<LIMBS>, const LIMBS: usize> vstd::std_specs::ops::SubSpecImpl for LargeZm<P, LIMBS> {
    open spec fn obeys_sub_spec() -> bool {
        false
    }

    open spec fn sub_req(self, rhs: Self) -> bool {
        self.wf() && rhs.wf()
    }

    open spec fn sub_spec(self, rhs: Self) -> Self {
        <Self as Ring>::sub_spec(self, rhs)
    }
}

impl<P: LargeZmProfile<LIMBS>, const LIMBS: usize> core::ops::Mul for LargeZm<P, LIMBS> {
    type Output = Self;

    fn mul(self, rhs: Self) -> (r: Self)
        ensures
            r == <Self as Ring>::mul_spec(self, rhs),
            r.wf(),
    {
        <Self as Ring>::mul_ref(&self, &rhs)
    }
}

impl<P: LargeZmProfile<LIMBS>, const LIMBS: usize> vstd::std_specs::ops::MulSpecImpl for LargeZm<P, LIMBS> {
    open spec fn obeys_mul_spec() -> bool {
        false
    }

    open spec fn mul_req(self, rhs: Self) -> bool {
        self.wf() && rhs.wf()
    }

    open spec fn mul_spec(self, rhs: Self) -> Self {
        <Self as Ring>::mul_spec(self, rhs)
    }
}

impl<P: LargeZmProfile<LIMBS>, const LIMBS: usize> core::ops::Neg for LargeZm<P, LIMBS> {
    type Output = Self;

    fn neg(self) -> (r: Self)
        ensures
            r == <Self as Ring>::neg_spec(self),
            r.wf(),
    {
        <Self as Ring>::neg_ref(&self)
    }
}

impl<P: LargeZmProfile<LIMBS>, const LIMBS: usize> vstd::std_specs::ops::NegSpecImpl for LargeZm<P, LIMBS> {
    open spec fn obeys_neg_spec() -> bool {
        false
    }

    open spec fn neg_req(self) -> bool {
        self.wf()
    }

    open spec fn neg_spec(self) -> Self {
        <Self as Ring>::neg_spec(self)
    }
}

} // verus!
