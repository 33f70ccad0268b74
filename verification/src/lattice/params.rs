//! Norm helpers for lattice objects.
use crate::arith::bigint::{BigUint, lemma_limbs_value_bound};
use crate::arith::large_modulus::{CanonicalValue, LargeCanonicalRing};
use crate::arith::ring::{IntegerRing, Ring, seq_wf};
use crate::lattice::types::RingVec;
use crate::serialize::{
    CanonicalDeserialize, CanonicalSerialize, SerializationError, all_can_encode, append_bytes, byte_pow,
    concat_encodings, decodes_seq, deserialize_entries, lemma_seq_not_short, lemma_seq_offset_unique,
    lemma_seq_prefix, lemma_seq_round_trip, short_seq,
    le_bytes_to_u64, le_encode, le_value, lemma_le_encode, lemma_le_encode_concat, lemma_le_encode_value,
    lemma_le_value_concat, u64_to_le_bytes,
};
use vstd::prelude::*;

verus! {

/// The centered absolute value of a residue `v` modulo `q`: `min(v, q - v)`.
pub open spec fn centered_abs(v: nat, q: nat) -> nat {
    if v <= q - v {
        v
    } else {
        (q - v) as nat
    }
}

/// `x` clamped to the `u128` range.
pub open spec fn sat_u128(x: int) -> int {
    if x > u128::MAX {
        u128::MAX as int
    } else {
        x
    }
}

/// `x` clamped to the `u64` range.
pub open spec fn sat_u64(x: int) -> int {
    if x > u64::MAX {
        u64::MAX as int
    } else {
        x
    }
}

/// The larger of two naturals.
pub open spec fn max_nat(a: nat, b: nat) -> nat {
    if a >= b {
        a
    } else {
        b
    }
}

/// The centered `L∞` norm of a ring element.
pub open spec fn elem_linf<R: IntegerRing>(x: R) -> nat {
    centered_abs(x.value(), R::modulus_spec())
}

/// The sum of the squared centered norms of the entries.
pub open spec fn l2_sum<R: IntegerRing>(s: Seq<R>) -> nat
    decreases s.len(),
{
    if s.len() == 0 {
        0
    } else {
        l2_sum(s.drop_last()) + elem_linf(s.last()) * elem_linf(s.last())
    }
}

/// The largest centered norm of the entries (zero for no entries).
pub open spec fn linf_max<R: IntegerRing>(s: Seq<R>) -> nat
    decreases s.len(),
{
    if s.len() == 0 {
        0
    } else {
        max_nat(linf_max(s.drop_last()), elem_linf(s.last()))
    }
}

/// `x` minus its centered distance to a multiple of `q`, for `x < q <= 2^64`,
/// with the modulus given truncated to 64 bits (`0` for `2^64`).
fn centered_abs_u64(x: u64, modulus: u64, Ghost(q): Ghost<nat>) -> (r: u64)
    requires
        0 < q <= 0x1_0000_0000_0000_0000,
        modulus as nat == q % 0x1_0000_0000_0000_0000,
        x < q,
    ensures
        r as nat == centered_abs(x as nat, q),
{
    if modulus == 0 {
        proof {
            if q < 0x1_0000_0000_0000_0000 {
                vstd::arithmetic::div_mod::lemma_small_mod(q, 0x1_0000_0000_0000_0000);
            }
        }
        let neg = 0u64.wrapping_sub(x);
        proof {
            if x > 0 {
                assert(neg == 0x1_0000_0000_0000_0000 - x);
            }
        }
        if x <= neg {
            x
        } else {
            neg
        }
    } else {
        proof {
            if q == 0x1_0000_0000_0000_0000 {
                vstd::arithmetic::div_mod::lemma_mod_self_0(q as int);
            } else {
                vstd::arithmetic::div_mod::lemma_small_mod(q, 0x1_0000_0000_0000_0000);
            }
        }
        let neg = modulus.wrapping_sub(x);
        if x <= neg {
            x
        } else {
            neg
        }
    }
}

/// `a * b`, saturating at `u128::MAX`.
fn sat_mul_u128(a: u128, b: u128) -> (r: u128)
    ensures
        r == sat_u128(a * b),
{
    match a.checked_mul(b) {
        Some(v) => v,
        None => u128::MAX,
    }
}

/// A ring element with exact centered norms.
pub trait NormedRing: IntegerRing {
    /// Exact squared `L2` norm of the centered representative.
    fn l2_norm_sq(&self) -> (r: u128)
        requires
            self.wf(),
        ensures
            r == elem_linf(*self) * elem_linf(*self),
    ;

    /// Exact `L∞` norm of the centered representative.
    fn linf_norm(&self) -> (r: u64)
        requires
            self.wf(),
        ensures
            r == elem_linf(*self),
    ;
}

impl<R: IntegerRing> NormedRing for R {
    fn l2_norm_sq(&self) -> (r: u128) {
        let a = self.linf_norm() as u128;
        proof {
            R::lemma_wf_params(*self);
            R::lemma_identity_values();
            R::lemma_value(*self, *self);
            assert(a <= 0x8000_0000_0000_0000);
            assert(a * a <= 0x8000_0000_0000_0000 * 0x8000_0000_0000_0000) by (nonlinear_arith)
                requires
                    a <= 0x8000_0000_0000_0000,
            ;
        }
        sat_mul_u128(a, a)
    }

    fn linf_norm(&self) -> (r: u64) {
        proof {
            R::lemma_wf_params(*self);
            R::lemma_identity_values();
            R::lemma_value(*self, *self);
        }
        let x = self.to_u64();
        let m = R::modulus();
        centered_abs_u64(x, m, Ghost(R::modulus_spec()))
    }
}

/// Exact norms of a vector.
#[derive(Debug, Clone, Copy, PartialEq, Eq)]
pub struct NormStats {
    /// Sum of squared entry norms.
    pub l2_sq: u128,
    /// Maximum `L∞` norm across entries.
    pub linf: u64,
}

impl NormStats {
    /// Compute norms for a lattice vector: the saturating sum of squared
    /// centered norms and the largest centered norm.
    pub fn compute<R: NormedRing>(v: &RingVec<R>) -> (r: Self)
        requires
            seq_wf(v@),
        ensures
            r.l2_sq == sat_u128(l2_sum(v@) as int),
            r.linf == linf_max(v@),
    {
        let entries = v.entries();
        let n = entries.len();
        let mut l2_sq: u128 = 0;
        let mut linf: u64 = 0;
        let mut i: usize = 0;
        while i < n
            invariant
                n == entries@.len(),
                entries@ == v@,
                seq_wf(v@),
                i <= n,
                l2_sq == sat_u128(l2_sum(v@.take(i as int)) as int),
                linf == linf_max(v@.take(i as int)),
            decreases n - i,
        {
            let e = &entries[i];
            proof {
                assert(v@.take(i + 1).drop_last() =~= v@.take(i as int));
                assert(v@.take(i + 1).last() == v@[i as int]);
            }
            l2_sq = l2_sq.saturating_add(e.l2_norm_sq());
            let l = e.linf_norm();
            if l > linf {
                linf = l;
            }
            i = i + 1;
        }
        proof {
            assert(v@.take(n as int) =~= v@);
        }
        NormStats { l2_sq, linf }
    }
}

/// Upper bounds used to accept or reject witnesses.
#[derive(Debug, Clone, Copy, PartialEq, Eq)]
pub struct NormBound {
    /// Maximum squared `L2` norm.
    pub max_l2_sq: u128,
    /// Maximum `L∞` norm.
    pub max_linf: u64,
}

/// The smallest `r` with `r * r >= n`.
pub open spec fn is_sqrt_ceil(n: nat, r: nat) -> bool {
    r * r >= n && (r == 0 || (r - 1) * (r - 1) < n)
}

/// The ceiling of the square root of `n`, by binary search.
pub fn int_sqrt_ceil(n: u128) -> (r: u128)
    ensures
        is_sqrt_ceil(n as nat, r as nat),
{
    if n <= 1 {
        proof {
            assert(n * n == n) by (nonlinear_arith)
                requires
                    n <= 1,
            ;
            if n == 1 {
                assert((n - 1) * (n - 1) == 0) by (nonlinear_arith)
                    requires
                        n == 1,
                ;
            }
        }
        return n;
    }
    let mut lo: u128 = 1;
    let mut hi: u128 = n;
    proof {
        assert(n * n >= n) by (nonlinear_arith)
            requires
                n >= 1,
        ;
    }
    while lo < hi
        invariant
            1 <= lo <= hi <= n,
            hi * hi >= n,
            (lo - 1) * (lo - 1) < n,
        decreases hi - lo,
    {
        let mid = lo + (hi - lo) / 2;
        let sq = sat_mul_u128(mid, mid);
        if sq < n {
            lo = mid + 1;
        } else {
            proof {
                assert(mid * mid >= n);
            }
            hi = mid;
        }
    }
    lo
}

/// `x` clamped to `[0, ceiling]`.
pub open spec fn sat_at(x: int, ceiling: nat) -> nat {
    if x > ceiling {
        ceiling
    } else if x < 0 {
        0
    } else {
        x as nat
    }
}

/// A norm value for wide moduli: a non-negative integer below a fixed ceiling, with
/// saturating arithmetic.
pub trait LargeNormValue: Sized + Copy {
    /// The integer the value stands for.
    spec fn norm_nat(&self) -> nat;

    /// The largest representable value.
    spec fn norm_ceiling() -> nat;

    /// The representation is usable: it holds every 64-bit value and its products fit
    /// the machine.
    spec fn norm_params_ok() -> bool;

    /// Every value is at most the ceiling, and usable representations hold every
    /// 64-bit value and have a ceiling of the form `4k + 3` (so no square).
    proof fn lemma_norm_bound(a: Self)
        ensures
            a.norm_nat() <= Self::norm_ceiling(),
            Self::norm_params_ok() ==> Self::norm_ceiling() >= 0xffff_ffff_ffff_ffff,
            Self::norm_params_ok() ==> Self::norm_ceiling() % 4 == 3,
    ;

    /// The value zero.
    fn zero() -> (r: Self)
        requires
            Self::norm_params_ok(),
        ensures
            r.norm_nat() == 0,
    ;

    /// Embed a 64-bit value.
    fn from_u64(value: u64) -> (r: Self)
        requires
            Self::norm_params_ok(),
        ensures
            r.norm_nat() == value,
    ;

    /// `lhs + rhs`, saturating at the ceiling.
    fn add(lhs: &Self, rhs: &Self) -> (r: Self)
        requires
            Self::norm_params_ok(),
        ensures
            r.norm_nat() == sat_at(lhs.norm_nat() + rhs.norm_nat() as int, Self::norm_ceiling()),
    ;

    /// `value * scalar`, saturating at the ceiling.
    fn scale_u64(value: &Self, scalar: u64) -> (r: Self)
        requires
            Self::norm_params_ok(),
        ensures
            r.norm_nat() == sat_at(value.norm_nat() * scalar as int, Self::norm_ceiling()),
    ;

    /// `value^2`, saturating at the ceiling.
    fn square(value: &Self) -> (r: Self)
        requires
            Self::norm_params_ok(),
        ensures
            r.norm_nat() == sat_at(value.norm_nat() * value.norm_nat() as int, Self::norm_ceiling()),
    ;

    /// The smallest integer `x` with `x^2 >= value`.
    fn sqrt_ceil(value: &Self) -> (r: Self)
        requires
            Self::norm_params_ok(),
        ensures
            is_sqrt_ceil(value.norm_nat(), r.norm_nat()),
    ;

    /// `lhs <= rhs`.
    fn le(lhs: &Self, rhs: &Self) -> (b: bool)
        ensures
            b == (lhs.norm_nat() <= rhs.norm_nat()),
    ;
}

impl<const M: usize> LargeNormValue for BigUint<M> {
    open spec fn norm_nat(&self) -> nat {
        self.value()
    }

    open spec fn norm_ceiling() -> nat {
        (BigUint::<M>::bound() - 1) as nat
    }

    open spec fn norm_params_ok() -> bool {
        M > 0 && 2 * M <= usize::MAX
    }

    proof fn lemma_norm_bound(a: Self) {
        lemma_limbs_value_bound(a.limbs@);
        if M > 0 {
            crate::arith::bigint::lemma_limb_pow_mono(1, M as nat);
            assert(crate::arith::bigint::limb_pow(1) == 0x1_0000_0000_0000_0000nat) by {
                reveal_with_fuel(crate::arith::bigint::limb_pow, 2);
            }
            let k = crate::arith::bigint::limb_pow((M - 1) as nat);
            crate::arith::bigint::lemma_limb_pow((M - 1) as nat);
            assert(k * 0x1_0000_0000_0000_0000 - 1 == 4 * (k * 0x4000_0000_0000_0000 - 1) + 3) by (nonlinear_arith);
            vstd::arithmetic::div_mod::lemma_fundamental_div_mod_converse(
                k * 0x1_0000_0000_0000_0000 - 1,
                4,
                k * 0x4000_0000_0000_0000 - 1,
                3,
            );
        }
    }

    fn zero() -> (r: Self) {
        BigUint::<M>::zero()
    }

    fn from_u64(value: u64) -> (r: Self) {
        BigUint::<M>::from_u64(value)
    }

    fn add(lhs: &Self, rhs: &Self) -> (r: Self) {
        let (sum, carry) = lhs.add_with_carry(rhs);
        proof {
            lemma_limbs_value_bound(sum.limbs@);
        }
        if carry {
            BigUint::<M>::max_value()
        } else {
            sum
        }
    }

    fn scale_u64(value: &Self, scalar: u64) -> (r: Self) {
        let (product, carry) = value.mul_by_limb(scalar);
        proof {
            lemma_limbs_value_bound(product.limbs@);
            let bd = BigUint::<M>::bound();
            if carry != 0 {
                assert(product.value() + carry * bd >= bd) by (nonlinear_arith)
                    requires
                        carry >= 1,
                ;
            }
        }
        if carry != 0 {
            BigUint::<M>::max_value()
        } else {
            proof {
                let bd = BigUint::<M>::bound();
                assert(carry * bd == 0) by (nonlinear_arith)
                    requires
                        carry == 0,
                ;
            }
            product
        }
    }

    fn square(value: &Self) -> (r: Self) {
        let (lo, hi) = value.widening_mul(value);
        let z = hi.is_zero();
        proof {
            lemma_limbs_value_bound(lo.limbs@);
            let bd = BigUint::<M>::bound();
            if !z {
                assert(lo.value() + hi.value() * bd >= bd) by (nonlinear_arith)
                    requires
                        hi.value() >= 1,
                ;
            }
        }
        if z {
            lo
        } else {
            BigUint::<M>::max_value()
        }
    }

    fn sqrt_ceil(value: &Self) -> (r: Self) {
        biguint_sqrt_ceil(value)
    }

    fn le(lhs: &Self, rhs: &Self) -> (b: bool) {
        let (_, below) = rhs.sub_with_borrow(lhs);
        !below
    }
}

/// The smallest `x` with `x^2 >= value`, by binary search.
pub fn biguint_sqrt_ceil<const M: usize>(value: &BigUint<M>) -> (r: BigUint<M>)
    requires
        M > 0,
        2 * M <= usize::MAX,
    ensures
        is_sqrt_ceil(value.value(), r.value()),
{
    let ghost v = value.value();
    let one = BigUint::<M>::one();
    let (_, above_one) = one.sub_with_borrow(value);
    if !above_one {
        // value <= 1
        proof {
            assert(v * v == v) by (nonlinear_arith)
                requires
                    v <= 1,
            ;
            if v == 1 {
                assert((v - 1) * (v - 1) == 0) by (nonlinear_arith)
                    requires
                        v == 1,
                ;
            }
        }
        return *value;
    }
    let mut lo = one;
    let mut hi = *value;
    proof {
        assert(v * v >= v) by (nonlinear_arith)
            requires
                v >= 1,
        ;
        lemma_limbs_value_bound(value.limbs@);
    }
    loop
        invariant
            M > 0,
            2 * M <= usize::MAX,
            v == value.value(),
            1 <= lo.value() <= hi.value() <= v,
            hi.value() * hi.value() >= v,
            (lo.value() - 1) * (lo.value() - 1) < v,
        ensures
            lo.value() >= hi.value(),
        decreases hi.value() - lo.value(),
    {
        let (_, lo_below) = lo.sub_with_borrow(&hi);
        if !lo_below {
            break;
        }
        let (delta, _) = hi.sub_with_borrow(&lo);
        let half = delta.shr_bits(1);
        let (mid, _) = lo.add_with_carry(&half);
        proof {
            vstd::arithmetic::power2::lemma2_to64();
            lemma_limbs_value_bound(lo.limbs@);
            lemma_limbs_value_bound(hi.limbs@);
            assert(half.value() == (hi.value() - lo.value()) / 2);
            assert(mid.value() == lo.value() + (hi.value() - lo.value()) / 2);
        }
        let (sq, sq_hi) = mid.widening_mul(&mid);
        let small = sq_hi.is_zero();
        let (_, sq_below) = sq.sub_with_borrow(value);
        if small && sq_below {
            // mid^2 < value
            let (next, _) = mid.add_small(1);
            proof {
                lemma_limbs_value_bound(mid.limbs@);
                let bd = BigUint::<M>::bound();
                assert(sq_hi.value() * bd == 0) by (nonlinear_arith)
                    requires
                        sq_hi.value() == 0,
                ;
                assert(sq.value() == mid.value() * mid.value());
                assert(mid.value() < hi.value()) by (nonlinear_arith)
                    requires
                        mid.value() * mid.value() < v,
                        hi.value() * hi.value() >= v,
                        mid.value() >= 1,
                ;
                assert(next.value() == mid.value() + 1);
            }
            lo = next;
        } else {
            proof {
                lemma_limbs_value_bound(sq.limbs@);
                let bd = BigUint::<M>::bound();
                if !small {
                    assert(sq.value() + sq_hi.value() * bd >= bd) by (nonlinear_arith)
                        requires
                            sq_hi.value() >= 1,
                    ;
                    assert(v < bd) by {
                        lemma_limbs_value_bound(value.limbs@);
                    }
                }
                assert(mid.value() * mid.value() >= v);
            }
            hi = mid;
        }
    }
    lo
}

impl LargeNormValue for u128 {
    open spec fn norm_nat(&self) -> nat {
        *self as nat
    }

    open spec fn norm_ceiling() -> nat {
        u128::MAX as nat
    }

    open spec fn norm_params_ok() -> bool {
        true
    }

    proof fn lemma_norm_bound(a: Self) {
    }

    fn zero() -> (r: Self) {
        0
    }

    fn from_u64(value: u64) -> (r: Self) {
        value as u128
    }

    fn add(lhs: &Self, rhs: &Self) -> (r: Self) {
        lhs.saturating_add(*rhs)
    }

    fn scale_u64(value: &Self, scalar: u64) -> (r: Self) {
        sat_mul_u128(*value, scalar as u128)
    }

    fn square(value: &Self) -> (r: Self) {
        sat_mul_u128(*value, *value)
    }

    fn sqrt_ceil(value: &Self) -> (r: Self) {
        int_sqrt_ceil(*value)
    }

    fn le(lhs: &Self, rhs: &Self) -> (b: bool) {
        *lhs <= *rhs
    }
}

/// The modulus held by a canonical type that wraps at `bound`: `0` stands for `bound`.
pub open spec fn unwrapped_modulus(m: nat, bound: nat) -> nat {
    if m == 0 {
        bound
    } else {
        m
    }
}

/// A canonical integer type whose centered values embed in a norm type wide enough
/// to hold their squares.
pub trait CanonicalNormEmbedding: CanonicalValue {
    /// The norm type.
    type Norm: LargeNormValue;

    /// The norm type is usable and holds the square of every canonical value.
    proof fn lemma_norm_wide()
        ensures
            <Self::Norm as LargeNormValue>::norm_params_ok(),
            Self::canonical_bound() * Self::canonical_bound() <= <Self::Norm as LargeNormValue>::norm_ceiling()
                + 1,
    ;

    /// The centered absolute value `min(v, q - v)` of `value` modulo `modulus`,
    /// where a zero modulus stands for the width of the type.
    fn centered_abs_norm(value: &Self, modulus: &Self) -> (r: Self::Norm)
        requires
            value.canonical_nat() < unwrapped_modulus(modulus.canonical_nat(), Self::canonical_bound()),
        ensures
            r.norm_nat() == centered_abs(
                value.canonical_nat(),
                unwrapped_modulus(modulus.canonical_nat(), Self::canonical_bound()),
            ),
    ;
}

impl CanonicalNormEmbedding for u64 {
    type Norm = u128;

    proof fn lemma_norm_wide() {
    }

    fn centered_abs_norm(value: &u64, modulus: &u64) -> (r: u128) {
        let ghost q = unwrapped_modulus(*modulus as nat, 0x1_0000_0000_0000_0000);
        proof {
            if *modulus != 0 {
                vstd::arithmetic::div_mod::lemma_small_mod(q, 0x1_0000_0000_0000_0000);
            }
        }
        centered_abs_u64(*value, *modulus, Ghost(q)) as u128
    }
}

/// `min(v, q - v)` for `v < q`, with `q` held modulo the width (`0` for the width).
fn biguint_centered<const N: usize>(value: &BigUint<N>, modulus: &BigUint<N>) -> (r: BigUint<N>)
    requires
        value.value() < unwrapped_modulus(modulus.value(), BigUint::<N>::bound()),
    ensures
        r.value() == centered_abs(value.value(), unwrapped_modulus(modulus.value(), BigUint::<N>::bound())),
{
    proof {
        lemma_limbs_value_bound(modulus.limbs@);
        lemma_limbs_value_bound(value.limbs@);
    }
    let (negative, _) = modulus.sub_with_borrow(value);
    let (_, below) = negative.sub_with_borrow(value);
    if below {
        negative
    } else {
        *value
    }
}

impl CanonicalNormEmbedding for BigUint<2> {
    type Norm = BigUint<4>;

    proof fn lemma_norm_wide() {
        crate::arith::bigint::lemma_limb_pow_add(2, 2);
    }

    fn centered_abs_norm(value: &Self, modulus: &Self) -> (r: BigUint<4>) {
        biguint_centered(value, modulus).zero_extend::<4>()
    }
}

impl CanonicalNormEmbedding for BigUint<3> {
    type Norm = BigUint<6>;

    proof fn lemma_norm_wide() {
        crate::arith::bigint::lemma_limb_pow_add(3, 3);
    }

    fn centered_abs_norm(value: &Self, modulus: &Self) -> (r: BigUint<6>) {
        biguint_centered(value, modulus).zero_extend::<6>()
    }
}

impl CanonicalNormEmbedding for BigUint<4> {
    type Norm = BigUint<8>;

    proof fn lemma_norm_wide() {
        crate::arith::bigint::lemma_limb_pow_add(4, 4);
    }

    fn centered_abs_norm(value: &Self, modulus: &Self) -> (r: BigUint<8>) {
        biguint_centered(value, modulus).zero_extend::<8>()
    }
}

impl CanonicalNormEmbedding for BigUint<6> {
    type Norm = BigUint<12>;

    proof fn lemma_norm_wide() {
        crate::arith::bigint::lemma_limb_pow_add(6, 6);
    }

    fn centered_abs_norm(value: &Self, modulus: &Self) -> (r: BigUint<12>) {
        biguint_centered(value, modulus).zero_extend::<12>()
    }
}

/// The centered `L∞` norm of an element of a large-modulus ring.
pub open spec fn large_elem_linf<R: LargeCanonicalRing>(x: R) -> nat {
    centered_abs(x.canonical_value(), R::canonical_modulus())
}

/// The sum of the squared centered norms of the entries.
pub open spec fn large_l2_sum<R: LargeCanonicalRing>(s: Seq<R>) -> nat
    decreases s.len(),
{
    if s.len() == 0 {
        0
    } else {
        large_l2_sum(s.drop_last()) + large_elem_linf(s.last()) * large_elem_linf(s.last())
    }
}

/// The largest centered norm of the entries (zero for no entries).
pub open spec fn large_linf_max<R: LargeCanonicalRing>(s: Seq<R>) -> nat
    decreases s.len(),
{
    if s.len() == 0 {
        0
    } else {
        max_nat(large_linf_max(s.drop_last()), large_elem_linf(s.last()))
    }
}

/// A ring element with exact centered norms in a wide norm type.
pub trait LargeNormedRing: LargeCanonicalRing {
    /// The norm type.
    type Norm: LargeNormValue;

    /// The norm type is usable.
    proof fn lemma_norm_ready()
        ensures
            <Self::Norm as LargeNormValue>::norm_params_ok(),
    ;

    /// The norm type holds the modulus.
    proof fn lemma_norm_holds_modulus()
        requires
            Self::params_ok(),
        ensures
            Self::canonical_modulus() <= <Self::Norm as LargeNormValue>::norm_ceiling(),
    ;

    /// Exact squared `L2` norm of the centered representative.
    fn l2_norm_sq_large(&self) -> (r: Self::Norm)
        requires
            self.wf(),
        ensures
            r.norm_nat() == large_elem_linf(*self) * large_elem_linf(*self),
    ;

    /// Exact `L∞` norm of the centered representative.
    fn linf_norm_large(&self) -> (r: Self::Norm)
        requires
            self.wf(),
        ensures
            r.norm_nat() == large_elem_linf(*self),
    ;
}

/// The centered norm of `x`, which is below the width of the canonical type.
fn centered_norm_of<R, C>(x: &R) -> (r: C::Norm) where
    R: LargeCanonicalRing<Canonical = C>,
    C: CanonicalNormEmbedding,

    requires
        x.wf(),
    ensures
        r.norm_nat() == large_elem_linf(*x),
        r.norm_nat() < C::canonical_bound(),
{
    proof {
        R::lemma_wf_params(*x);
        R::lemma_canonical(*x, *x);
    }
    let c = x.to_canonical();
    let m = R::modulus_canonical();
    proof {
        let q = R::canonical_modulus();
        let bd = C::canonical_bound();
        if q == bd {
            vstd::arithmetic::div_mod::lemma_mod_self_0(bd as int);
        } else {
            vstd::arithmetic::div_mod::lemma_small_mod(q, bd);
        }
    }
    C::centered_abs_norm(&c, &m)
}

impl<R, C> LargeNormedRing for R where R: LargeCanonicalRing<Canonical = C>, C: CanonicalNormEmbedding {
    type Norm = C::Norm;

    proof fn lemma_norm_ready() {
        C::lemma_norm_wide();
    }

    proof fn lemma_norm_holds_modulus() {
        C::lemma_norm_wide();
        R::lemma_modulus_fits();
        R::lemma_canonical_identities();
        let bd = C::canonical_bound();
        assert(bd <= bd * bd - 1) by (nonlinear_arith)
            requires
                bd >= 2,
        ;
    }

    fn l2_norm_sq_large(&self) -> (r: C::Norm) {
        let l = centered_norm_of::<R, C>(self);
        proof {
            C::lemma_norm_wide();
            let x = l.norm_nat();
            let bd = C::canonical_bound();
            assert(x * x < bd * bd) by (nonlinear_arith)
                requires
                    x < bd,
            ;
        }
        <C::Norm as LargeNormValue>::square(&l)
    }

    fn linf_norm_large(&self) -> (r: C::Norm) {
        centered_norm_of::<R, C>(self)
    }
}

/// Exact large norms of a vector.
#[derive(Debug, Clone, Copy, PartialEq, Eq)]
pub struct LargeNormStats<T> {
    /// Sum of squared entry norms.
    pub l2_sq: T,
    /// Maximum `L∞` norm across entries.
    pub linf: T,
}

impl<T: LargeNormValue> LargeNormStats<T> {
    /// Compute norms for a lattice vector: the sum of squared centered norms,
    /// saturating at the norm type's ceiling, and the largest centered norm.
    pub fn compute<R: LargeNormedRing<Norm = T>>(v: &RingVec<R>) -> (r: Self)
        requires
            seq_wf(v@),
        ensures
            r.l2_sq.norm_nat() == sat_at(large_l2_sum(v@) as int, T::norm_ceiling()),
            r.linf.norm_nat() == large_linf_max(v@),
    {
        proof {
            R::lemma_norm_ready();
        }
        let entries = v.entries();
        let n = entries.len();
        let mut l2_sq = T::zero();
        let mut linf = T::zero();
        let mut i: usize = 0;
        while i < n
            invariant
                n == entries@.len(),
                entries@ == v@,
                seq_wf(v@),
                T::norm_params_ok(),
                i <= n,
                l2_sq.norm_nat() == sat_at(large_l2_sum(v@.take(i as int)) as int, T::norm_ceiling()),
                linf.norm_nat() == large_linf_max(v@.take(i as int)),
            decreases n - i,
        {
            let e = &entries[i];
            proof {
                assert(v@.take(i + 1).drop_last() =~= v@.take(i as int));
                assert(v@.take(i + 1).last() == v@[i as int]);
                T::lemma_norm_bound(l2_sq);
            }
            let sq = e.l2_norm_sq_large();
            l2_sq = T::add(&l2_sq, &sq);
            let l = e.linf_norm_large();
            if !T::le(&l, &linf) {
                linf = l;
            }
            i = i + 1;
        }
        proof {
            assert(v@.take(n as int) =~= v@);
        }
        LargeNormStats { l2_sq, linf }
    }
}

/// `v` passes the large bound `a`: its saturated squared `L2` norm and its `L∞`
/// norm stay within the bound's limits.
pub open spec fn large_bound_accepts<R: LargeCanonicalRing, T: LargeNormValue>(
    a: LargeNormBound<T>,
    v: Seq<R>,
) -> bool {
    sat_at(large_l2_sum(v) as int, T::norm_ceiling()) <= a.max_l2_sq.norm_nat() && large_linf_max(v)
        <= a.max_linf.norm_nat()
}

/// `r` composes `a` and `b` for vector addition: the `L∞` limits add, and the `L2`
/// limit is the square of the sum of the rounded-up square roots, all saturating.
pub open spec fn is_large_composed_add<T: LargeNormValue>(
    a: LargeNormBound<T>,
    b: LargeNormBound<T>,
    r: LargeNormBound<T>,
) -> bool {
    let c = T::norm_ceiling();
    &&& r.max_linf.norm_nat() == sat_at(a.max_linf.norm_nat() + b.max_linf.norm_nat() as int, c)
    &&& exists|ra: nat, rb: nat|
        #![trigger is_sqrt_ceil(a.max_l2_sq.norm_nat(), ra), is_sqrt_ceil(b.max_l2_sq.norm_nat(), rb)]
        is_sqrt_ceil(a.max_l2_sq.norm_nat(), ra) && is_sqrt_ceil(b.max_l2_sq.norm_nat(), rb)
            && r.max_l2_sq.norm_nat() == sat_at(sat_at(ra + rb as int, c) * sat_at(ra + rb as int, c) as int, c)
}

/// Large-modulus companion to [`NormBound`].
#[derive(Debug, Clone, Copy, PartialEq, Eq)]
pub struct LargeNormBound<T> {
    /// Maximum squared `L2` norm.
    pub max_l2_sq: T,
    /// Maximum `L∞` norm.
    pub max_linf: T,
}

impl<T: LargeNormValue> LargeNormBound<T> {
    /// Build a bound from exact large norms.
    pub fn from_stats(stats: &LargeNormStats<T>) -> (r: Self)
        ensures
            r.max_l2_sq == stats.l2_sq,
            r.max_linf == stats.linf,
    {
        LargeNormBound { max_l2_sq: stats.l2_sq, max_linf: stats.linf }
    }

    /// Whether a vector satisfies this bound.
    pub fn check<R: LargeNormedRing<Norm = T>>(&self, v: &RingVec<R>) -> (b: bool)
        requires
            seq_wf(v@),
        ensures
            b == large_bound_accepts(*self, v@),
    {
        let stats = LargeNormStats::compute(v);
        T::le(&stats.l2_sq, &self.max_l2_sq) && T::le(&stats.linf, &self.max_linf)
    }

    /// Compose bounds for vector addition: `L∞` bounds add, and `L2` bounds
    /// add as square roots (rounded up), all saturating.
    pub fn compose_add(a: &Self, b: &Self) -> (r: Self)
        requires
            T::norm_params_ok(),
        ensures
            is_large_composed_add(*a, *b, r),
    {
        let linf = T::add(&a.max_linf, &b.max_linf);
        let l2_a = T::sqrt_ceil(&a.max_l2_sq);
        let l2_b = T::sqrt_ceil(&b.max_l2_sq);
        let l2 = T::add(&l2_a, &l2_b);
        let sq = T::square(&l2);
        proof {
            assert(is_sqrt_ceil(a.max_l2_sq.norm_nat(), l2_a.norm_nat()) && is_sqrt_ceil(
                b.max_l2_sq.norm_nat(),
                l2_b.norm_nat(),
            ));
        }
        LargeNormBound { max_l2_sq: sq, max_linf: linf }
    }

    /// Every bound is valid.
    pub fn is_valid(&self) -> (b: bool)
        ensures
            b,
    {
        true
    }

    /// Scale a bound by a non-negative scalar (saturating).
    pub fn scale(&self, scalar: u64) -> (r: Self)
        requires
            T::norm_params_ok(),
        ensures
            r.max_l2_sq.norm_nat() == sat_at(
                sat_at(self.max_l2_sq.norm_nat() * scalar as int, T::norm_ceiling()) * scalar as int,
                T::norm_ceiling(),
            ),
            r.max_linf.norm_nat() == sat_at(self.max_linf.norm_nat() * scalar as int, T::norm_ceiling()),
    {
        let once = T::scale_u64(&self.max_l2_sq, scalar);
        LargeNormBound { max_l2_sq: T::scale_u64(&once, scalar), max_linf: T::scale_u64(&self.max_linf, scalar) }
    }
}

/// `v` passes the bound `a`: its saturated squared `L2` norm and its `L∞` norm stay
/// within the bound's limits.
pub open spec fn bound_accepts<R: IntegerRing>(a: NormBound, v: Seq<R>) -> bool {
    sat_u128(l2_sum(v) as int) <= a.max_l2_sq && linf_max(v) <= a.max_linf
}

/// `r` composes `a` and `b` for vector addition: the `L∞` limits add, and the `L2`
/// limit is the square of the sum of the rounded-up square roots, all saturating.
pub open spec fn is_composed_add(a: NormBound, b: NormBound, r: NormBound) -> bool {
    &&& r.max_linf == sat_u64(a.max_linf + b.max_linf)
    &&& exists|ra: nat, rb: nat|
        #![trigger is_sqrt_ceil(a.max_l2_sq as nat, ra), is_sqrt_ceil(b.max_l2_sq as nat, rb)]
        is_sqrt_ceil(a.max_l2_sq as nat, ra) && is_sqrt_ceil(b.max_l2_sq as nat, rb)
            && r.max_l2_sq == sat_u128(sat_u128((ra + rb) as int) * sat_u128((ra + rb) as int))
}

/// The entrywise sum of two vectors.
pub open spec fn add_seq<R: Ring>(x: Seq<R>, y: Seq<R>) -> Seq<R> {
    Seq::new(x.len(), |i: int| R::add_spec(x[i], y[i]))
}

/// `sum_i |x_i| |y_i|` over the centered norms of the entries.
pub open spec fn norm_dot<R: IntegerRing>(x: Seq<R>, y: Seq<R>) -> nat
    decreases x.len(),
{
    if x.len() == 0 || y.len() == 0 {
        0
    } else {
        norm_dot(x.drop_last(), y.drop_last()) + elem_linf(x.last()) * elem_linf(y.last())
    }
}

/// A residue's centered norm is at most the absolute value of any integer congruent
/// to it.
proof fn lemma_centered_le(v: nat, q: nat, t: int, k: int)
    requires
        q > 0,
        v < q,
        t == v + k * q,
    ensures
        centered_abs(v, q) <= (if t >= 0 {
            t
        } else {
            -t
        }),
{
    if k >= 0 {
        assert(k * q >= 0) by (nonlinear_arith)
            requires
                k >= 0,
                q > 0,
        ;
    } else {
        assert(k * q <= -q) by (nonlinear_arith)
            requires
                k <= -1,
                q > 0,
        ;
    }
}

/// The centered norm of a sum is at most the sum of the centered norms, and at
/// most half the modulus.
proof fn lemma_elem_linf_add<R: IntegerRing>(x: R, y: R)
    requires
        x.wf(),
        y.wf(),
    ensures
        elem_linf(R::add_spec(x, y)) <= elem_linf(x) + elem_linf(y),
        2 * elem_linf(x) <= R::modulus_spec(),
        R::add_spec(x, y).wf(),
{
    R::lemma_value(x, y);
    R::lemma_value(y, y);
    R::lemma_closed(x, y);
    R::lemma_value(R::add_spec(x, y), R::add_spec(x, y));
    let q = R::modulus_spec();
    let xv = x.value();
    let yv = y.value();
    let zv = R::add_spec(x, y).value();
    let ex: int = if xv <= q - xv { 0 } else { 1 };
    let ey: int = if yv <= q - yv { 0 } else { 1 };
    let sx: int = xv - ex * q;
    let sy: int = yv - ey * q;
    vstd::arithmetic::div_mod::lemma_fundamental_div_mod((xv + yv) as int, q as int);
    let d: int = (xv + yv) as int / (q as int);
    let t: int = sx + sy;
    assert(t == zv + (d - ex - ey) * q) by (nonlinear_arith)
        requires
            (xv + yv) as int == q * d + zv,
            sx == xv - ex * q,
            sy == yv - ey * q,
            t == sx + sy,
    ;
    lemma_centered_le(zv, q, t, d - ex - ey);
    let ax: int = if sx >= 0 { sx } else { -sx };
    let ay: int = if sy >= 0 { sy } else { -sy };
    assert(ax == elem_linf(x));
    assert(ay == elem_linf(y));
}

/// The entrywise sum drops its last entry along with the summands.
proof fn lemma_add_seq_drop_last<R: Ring>(x: Seq<R>, y: Seq<R>)
    requires
        x.len() == y.len(),
        x.len() > 0,
    ensures
        add_seq(x, y).drop_last() == add_seq(x.drop_last(), y.drop_last()),
        add_seq(x, y).last() == R::add_spec(x.last(), y.last()),
{
    assert(add_seq(x, y).drop_last() =~= add_seq(x.drop_last(), y.drop_last()));
}

/// The `L∞` norm of a sum is at most the sum of the `L∞` norms, and below `2^64`.
proof fn lemma_linf_max_add<R: IntegerRing>(x: Seq<R>, y: Seq<R>)
    requires
        x.len() == y.len(),
        seq_wf(x),
        seq_wf(y),
    ensures
        linf_max(add_seq(x, y)) <= linf_max(x) + linf_max(y),
        linf_max(add_seq(x, y)) < 0x1_0000_0000_0000_0000,
    decreases x.len(),
{
    if x.len() > 0 {
        lemma_add_seq_drop_last(x, y);
        lemma_linf_max_add(x.drop_last(), y.drop_last());
        lemma_elem_linf_add(x.last(), y.last());
        lemma_elem_linf_add(R::add_spec(x.last(), y.last()), y.last());
        R::lemma_wf_params(x.last());
        R::lemma_identity_values();
        lemma_linf_max_ge(x, x.len() as int - 1);
        lemma_linf_max_ge(y, y.len() as int - 1);
    }
}

/// The `L∞` norm bounds the last entry's norm.
proof fn lemma_linf_max_ge<R: IntegerRing>(s: Seq<R>, i: int)
    requires
        s.len() > 0,
        i == s.len() - 1,
    ensures
        elem_linf(s[i]) <= linf_max(s),
        linf_max(s.drop_last()) <= linf_max(s),
{
}

/// `sum (a_i + b_i)^2`-style bound: the squared `L2` norm of a sum is at most
/// `|x|^2 + |y|^2 + 2 sum |x_i| |y_i|`.
proof fn lemma_l2_sum_add<R: IntegerRing>(x: Seq<R>, y: Seq<R>)
    requires
        x.len() == y.len(),
        seq_wf(x),
        seq_wf(y),
    ensures
        l2_sum(add_seq(x, y)) <= l2_sum(x) + l2_sum(y) + 2 * norm_dot(x, y),
    decreases x.len(),
{
    if x.len() > 0 {
        lemma_add_seq_drop_last(x, y);
        lemma_l2_sum_add(x.drop_last(), y.drop_last());
        lemma_elem_linf_add(x.last(), y.last());
        let c = elem_linf(R::add_spec(x.last(), y.last()));
        let a = elem_linf(x.last());
        let b = elem_linf(y.last());
        assert(c * c <= a * a + b * b + 2 * (a * b)) by (nonlinear_arith)
            requires
                c <= a + b,
        ;
    }
}

/// Cauchy-Schwarz for centered norms: `(sum |x_i| |y_i|)^2 <= |x|^2 |y|^2`.
proof fn lemma_cauchy_schwarz<R: IntegerRing>(x: Seq<R>, y: Seq<R>)
    requires
        x.len() == y.len(),
    ensures
        norm_dot(x, y) * norm_dot(x, y) <= l2_sum(x) * l2_sum(y),
    decreases x.len(),
{
    if x.len() > 0 {
        lemma_cauchy_schwarz(x.drop_last(), y.drop_last());
        let s = norm_dot(x.drop_last(), y.drop_last()) as int;
        let aa = l2_sum(x.drop_last()) as int;
        let bb = l2_sum(y.drop_last()) as int;
        let a = elem_linf(x.last()) as int;
        let b = elem_linf(y.last()) as int;
        lemma_cauchy_schwarz_step(s, aa, bb, a, b);
    }
}

/// One step of Cauchy-Schwarz: from `s^2 <= A B` follows
/// `(s + a b)^2 <= (A + a^2) (B + b^2)`.
proof fn lemma_cauchy_schwarz_step(s: int, aa: int, bb: int, a: int, b: int)
    requires
        s >= 0,
        aa >= 0,
        bb >= 0,
        a >= 0,
        b >= 0,
        s * s <= aa * bb,
    ensures
        (s + a * b) * (s + a * b) <= (aa + a * a) * (bb + b * b),
{
    let u = a * a * bb;
    let v = b * b * aa;
    let w = 2 * a * b * s;
    let m = a * a * (b * b);
    assert(u >= 0 && v >= 0 && w >= 0 && m >= 0) by (nonlinear_arith)
        requires
            s >= 0,
            aa >= 0,
            bb >= 0,
            a >= 0,
            b >= 0,
            u == a * a * bb,
            v == b * b * aa,
            w == 2 * a * b * s,
            m == a * a * (b * b),
    ;
    assert((u + v) * (u + v) >= 4 * (u * v)) by (nonlinear_arith);
    assert(u * v == m * (aa * bb)) by (nonlinear_arith)
        requires
            u == a * a * bb,
            v == b * b * aa,
            m == a * a * (b * b),
    ;
    assert(w * w == 4 * (m * (s * s))) by (nonlinear_arith)
        requires
            w == 2 * a * b * s,
            m == a * a * (b * b),
    ;
    assert(m * (s * s) <= m * (aa * bb)) by (nonlinear_arith)
        requires
            m >= 0,
            s * s <= aa * bb,
    ;
    lemma_square_le(w, u + v);
    assert((s + a * b) * (s + a * b) == s * s + w + m) by (nonlinear_arith)
        requires
            w == 2 * a * b * s,
            m == a * a * (b * b),
    ;
    assert((aa + a * a) * (bb + b * b) == aa * bb + u + v + m) by (nonlinear_arith)
        requires
            u == a * a * bb,
            v == b * b * aa,
            m == a * a * (b * b),
    ;
}

/// For non-negative `p` and `q`, `p^2 <= q^2` gives `p <= q`.
proof fn lemma_square_le(p: int, q: int)
    requires
        p >= 0,
        q >= 0,
        p * p <= q * q,
    ensures
        p <= q,
{
    if p > q {
        assert(p * p > q * q) by (nonlinear_arith)
            requires
                p > q,
                q >= 0,
        ;
    }
}

/// Composed bounds are sound for vector addition: if `a` accepts `x` and `b` accepts
/// `y`, the composition of `a` and `b` accepts `x + y`.
pub proof fn lemma_compose_add_sound<R: IntegerRing>(
    a: NormBound,
    b: NormBound,
    r: NormBound,
    x: Seq<R>,
    y: Seq<R>,
)
    requires
        x.len() == y.len(),
        seq_wf(x),
        seq_wf(y),
        bound_accepts(a, x),
        bound_accepts(b, y),
        is_composed_add(a, b, r),
    ensures
        bound_accepts(r, add_seq(x, y)),
{
    lemma_linf_max_add(x, y);
    let (ra, rb) = choose|ra: nat, rb: nat|
        #![trigger is_sqrt_ceil(a.max_l2_sq as nat, ra), is_sqrt_ceil(b.max_l2_sq as nat, rb)]
        is_sqrt_ceil(a.max_l2_sq as nat, ra) && is_sqrt_ceil(b.max_l2_sq as nat, rb) && r.max_l2_sq
            == sat_u128(sat_u128((ra + rb) as int) * sat_u128((ra + rb) as int));
    let s = (ra + rb) as int;
    let lx = l2_sum(x) as int;
    let ly = l2_sum(y) as int;
    let lz = l2_sum(add_seq(x, y)) as int;
    let mx: int = u128::MAX as int;
    if s * s <= mx {
        assert(ra * ra <= s * s && rb * rb <= s * s) by (nonlinear_arith)
            requires
                s == ra + rb,
                ra >= 0,
                rb >= 0,
        ;
        // A bound below the top of the `u128` range is not saturated, so each limit
        // is at most the square of its root.
        lemma_not_square_max(ra as int, rb as int);
        assert(lx <= ra * ra);
        assert(ly <= rb * rb);
        lemma_l2_sum_add(x, y);
        lemma_cauchy_schwarz(x, y);
        let d = norm_dot(x, y) as int;
        assert(d * d <= (ra * rb) * (ra * rb)) by (nonlinear_arith)
            requires
                d * d <= lx * ly,
                lx <= ra * ra,
                ly <= rb * rb,
                lx >= 0,
                ly >= 0,
        ;
        assert(ra * rb >= 0) by (nonlinear_arith);
        lemma_square_le(d, (ra * rb) as int);
        assert(lz <= s * s) by (nonlinear_arith)
            requires
                lz <= lx + ly + 2 * d,
                lx <= ra * ra,
                ly <= rb * rb,
                d <= ra * rb,
                s == ra + rb,
        ;
        assert(s <= mx) by (nonlinear_arith)
            requires
                s * s <= mx,
                s >= 0,
        ;
        assert(sat_u128(s) == s);
    } else {
        assert(sat_u128(s) * sat_u128(s) > mx) by (nonlinear_arith)
            requires
                s * s > mx,
                s >= 0,
                mx > 0,
                sat_u128(s) == (if s > mx { mx } else { s }),
        ;
    }
}

/// The centered norm of a sum is at most the sum of the centered norms, and at
/// most half the modulus.
proof fn lemma_large_elem_linf_add<R: LargeCanonicalRing>(x: R, y: R)
    requires
        x.wf(),
        y.wf(),
    ensures
        large_elem_linf(R::add_spec(x, y)) <= large_elem_linf(x) + large_elem_linf(y),
        2 * large_elem_linf(x) <= R::canonical_modulus(),
        R::add_spec(x, y).wf(),
{
    R::lemma_canonical(x, y);
    R::lemma_canonical(y, y);
    R::lemma_closed(x, y);
    R::lemma_canonical(R::add_spec(x, y), R::add_spec(x, y));
    let q = R::canonical_modulus();
    let xv = x.canonical_value();
    let yv = y.canonical_value();
    let zv = R::add_spec(x, y).canonical_value();
    let ex: int = if xv <= q - xv { 0 } else { 1 };
    let ey: int = if yv <= q - yv { 0 } else { 1 };
    let sx: int = xv - ex * q;
    let sy: int = yv - ey * q;
    vstd::arithmetic::div_mod::lemma_fundamental_div_mod((xv + yv) as int, q as int);
    let d: int = (xv + yv) as int / (q as int);
    let t: int = sx + sy;
    assert(t == zv + (d - ex - ey) * q) by (nonlinear_arith)
        requires
            (xv + yv) as int == q * d + zv,
            sx == xv - ex * q,
            sy == yv - ey * q,
            t == sx + sy,
    ;
    lemma_centered_le(zv, q, t, d - ex - ey);
    let ax: int = if sx >= 0 { sx } else { -sx };
    let ay: int = if sy >= 0 { sy } else { -sy };
    assert(ax == large_elem_linf(x));
    assert(ay == large_elem_linf(y));
}

/// The `L∞` norm of a sum is at most the sum of the `L∞` norms, and at most the
/// modulus.
proof fn lemma_large_linf_max_add<R: LargeCanonicalRing>(x: Seq<R>, y: Seq<R>)
    requires
        x.len() == y.len(),
        seq_wf(x),
        seq_wf(y),
    ensures
        large_linf_max(add_seq(x, y)) <= large_linf_max(x) + large_linf_max(y),
        x.len() > 0 ==> large_linf_max(add_seq(x, y)) <= R::canonical_modulus(),
    decreases x.len(),
{
    if x.len() > 0 {
        lemma_add_seq_drop_last(x, y);
        lemma_large_linf_max_add(x.drop_last(), y.drop_last());
        lemma_large_elem_linf_add(x.last(), y.last());
        lemma_large_elem_linf_add(R::add_spec(x.last(), y.last()), y.last());
        R::lemma_canonical(x.last(), x.last());
        assert(large_linf_max(x.drop_last()) <= large_linf_max(x));
        assert(large_elem_linf(x.last()) <= large_linf_max(x));
        assert(large_linf_max(y.drop_last()) <= large_linf_max(y));
        assert(large_elem_linf(y.last()) <= large_linf_max(y));
    }
}

/// The squared `L2` norm of a sum is at most `|x|^2 + |y|^2 + 2 sum |x_i| |y_i|`.
proof fn lemma_large_l2_sum_add<R: LargeCanonicalRing>(x: Seq<R>, y: Seq<R>)
    requires
        x.len() == y.len(),
        seq_wf(x),
        seq_wf(y),
    ensures
        large_l2_sum(add_seq(x, y)) <= large_l2_sum(x) + large_l2_sum(y) + 2 * large_norm_dot(x, y),
    decreases x.len(),
{
    if x.len() > 0 {
        lemma_add_seq_drop_last(x, y);
        lemma_large_l2_sum_add(x.drop_last(), y.drop_last());
        lemma_large_elem_linf_add(x.last(), y.last());
        let c = large_elem_linf(R::add_spec(x.last(), y.last()));
        let a = large_elem_linf(x.last());
        let b = large_elem_linf(y.last());
        assert(c * c <= a * a + b * b + 2 * (a * b)) by (nonlinear_arith)
            requires
                c <= a + b,
        ;
    }
}

/// `sum_i |x_i| |y_i|` over the centered norms of the entries.
pub open spec fn large_norm_dot<R: LargeCanonicalRing>(x: Seq<R>, y: Seq<R>) -> nat
    decreases x.len(),
{
    if x.len() == 0 || y.len() == 0 {
        0
    } else {
        large_norm_dot(x.drop_last(), y.drop_last()) + large_elem_linf(x.last()) * large_elem_linf(y.last())
    }
}

/// Cauchy-Schwarz for centered norms: `(sum |x_i| |y_i|)^2 <= |x|^2 |y|^2`.
proof fn lemma_large_cauchy_schwarz<R: LargeCanonicalRing>(x: Seq<R>, y: Seq<R>)
    requires
        x.len() == y.len(),
    ensures
        large_norm_dot(x, y) * large_norm_dot(x, y) <= large_l2_sum(x) * large_l2_sum(y),
    decreases x.len(),
{
    if x.len() > 0 {
        lemma_large_cauchy_schwarz(x.drop_last(), y.drop_last());
        let s = large_norm_dot(x.drop_last(), y.drop_last()) as int;
        let aa = large_l2_sum(x.drop_last()) as int;
        let bb = large_l2_sum(y.drop_last()) as int;
        let a = large_elem_linf(x.last()) as int;
        let b = large_elem_linf(y.last()) as int;
        lemma_cauchy_schwarz_step(s, aa, bb, a, b);
    }
}

/// No square is `3` modulo `4`.
proof fn lemma_no_square_3_mod_4(t: int, c: int)
    requires
        t >= 0,
        c % 4 == 3,
    ensures
        t * t != c,
{
    let j = t / 2;
    vstd::arithmetic::div_mod::lemma_fundamental_div_mod(t, 2);
    if t % 2 == 0 {
        assert(t * t == 4 * (j * j)) by (nonlinear_arith)
            requires
                t == 2 * j,
        ;
        vstd::arithmetic::div_mod::lemma_fundamental_div_mod_converse(t * t, 4, j * j, 0);
    } else {
        assert(t * t == 4 * (j * j + j) + 1) by (nonlinear_arith)
            requires
                t == 2 * j + 1,
        ;
        vstd::arithmetic::div_mod::lemma_fundamental_div_mod_converse(t * t, 4, j * j + j, 1);
    }
}

/// Composed large bounds are sound for vector addition: if `a` accepts `x` and `b`
/// accepts `y`, the composition of `a` and `b` accepts `x + y`.
pub proof fn lemma_large_compose_add_sound<R: LargeNormedRing>(
    a: LargeNormBound<R::Norm>,
    b: LargeNormBound<R::Norm>,
    r: LargeNormBound<R::Norm>,
    x: Seq<R>,
    y: Seq<R>,
)
    requires
        x.len() == y.len(),
        seq_wf(x),
        seq_wf(y),
        large_bound_accepts(a, x),
        large_bound_accepts(b, y),
        is_large_composed_add(a, b, r),
    ensures
        large_bound_accepts(r, add_seq(x, y)),
{
    R::lemma_norm_ready();
    let c = <R::Norm as LargeNormValue>::norm_ceiling();
    <R::Norm as LargeNormValue>::lemma_norm_bound(a.max_l2_sq);
    <R::Norm as LargeNormValue>::lemma_norm_bound(b.max_l2_sq);
    lemma_large_linf_max_add(x, y);
    if x.len() > 0 {
        R::lemma_wf_params(x[0]);
        R::lemma_norm_holds_modulus();
    }
    let (ra, rb) = choose|ra: nat, rb: nat|
        #![trigger is_sqrt_ceil(a.max_l2_sq.norm_nat(), ra), is_sqrt_ceil(b.max_l2_sq.norm_nat(), rb)]
        is_sqrt_ceil(a.max_l2_sq.norm_nat(), ra) && is_sqrt_ceil(b.max_l2_sq.norm_nat(), rb)
            && r.max_l2_sq.norm_nat() == sat_at(sat_at(ra + rb as int, c) * sat_at(ra + rb as int, c) as int, c);
    let s = (ra + rb) as int;
    let lx = large_l2_sum(x) as int;
    let ly = large_l2_sum(y) as int;
    let lz = large_l2_sum(add_seq(x, y)) as int;
    let mx: int = c as int;
    if s * s <= mx {
        assert(ra * ra <= s * s && rb * rb <= s * s) by (nonlinear_arith)
            requires
                s == ra + rb,
                ra >= 0,
                rb >= 0,
        ;
        // A limit below the ceiling is not saturated, and the ceiling is no square,
        // so each limit bounds its exact norm and is at most the square of its root.
        lemma_no_square_3_mod_4(ra as int, mx);
        lemma_no_square_3_mod_4(rb as int, mx);
        assert(lx <= ra * ra);
        assert(ly <= rb * rb);
        lemma_large_l2_sum_add(x, y);
        lemma_large_cauchy_schwarz(x, y);
        let d = large_norm_dot(x, y) as int;
        assert(d * d <= (ra * rb) * (ra * rb)) by (nonlinear_arith)
            requires
                d * d <= lx * ly,
                lx <= ra * ra,
                ly <= rb * rb,
                lx >= 0,
                ly >= 0,
        ;
        assert(ra * rb >= 0) by (nonlinear_arith);
        lemma_square_le(d, (ra * rb) as int);
        assert(lz <= s * s) by (nonlinear_arith)
            requires
                lz <= lx + ly + 2 * d,
                lx <= ra * ra,
                ly <= rb * rb,
                d <= ra * rb,
                s == ra + rb,
        ;
        assert(s <= mx) by (nonlinear_arith)
            requires
                s * s <= mx,
                s >= 0,
                mx >= 1,
        ;
        assert(sat_at(s, c) == s);
    } else {
        assert(sat_at(s, c) * sat_at(s, c) > mx) by (nonlinear_arith)
            requires
                s * s > mx,
                s >= 0,
                mx > 1,
                sat_at(s, c) == (if s > mx { mx } else { s }),
        ;
    }
}

/// A bound built from a vector's own norms accepts that vector.
pub proof fn lemma_bound_from_own_stats<R: IntegerRing>(v: Seq<R>, b: NormBound)
    requires
        b.max_l2_sq == sat_u128(l2_sum(v) as int),
        b.max_linf == linf_max(v),
    ensures
        bound_accepts(b, v),
{
}

/// A large bound built from a vector's own norms accepts that vector.
pub proof fn lemma_large_bound_from_own_stats<R: LargeNormedRing>(v: Seq<R>, b: LargeNormBound<R::Norm>)
    requires
        b.max_l2_sq.norm_nat() == sat_at(large_l2_sum(v) as int, <R::Norm as LargeNormValue>::norm_ceiling()),
        b.max_linf.norm_nat() == large_linf_max(v),
    ensures
        large_bound_accepts(b, v),
{
}

/// `2^128 - 1` is no square, and a root at most `2^64` whose square reaches
/// `2^128 - 1` pushes any sum with a second root past `2^128 - 1`.
proof fn lemma_not_square_max(ra: int, rb: int)
    requires
        ra >= 0,
        rb >= 0,
        (ra + rb) * (ra + rb) <= u128::MAX,
    ensures
        ra * ra < u128::MAX,
        rb * rb < u128::MAX,
{
    let m: int = u128::MAX as int;
    assert(ra * ra <= (ra + rb) * (ra + rb) && rb * rb <= (ra + rb) * (ra + rb)) by (nonlinear_arith)
        requires
            ra >= 0,
            rb >= 0,
    ;
    lemma_no_square_at(ra);
    lemma_no_square_at(rb);
}

/// No integer squares to `2^128 - 1`.
proof fn lemma_no_square_at(t: int)
    requires
        t >= 0,
    ensures
        t * t != u128::MAX,
{
    if t <= 0xffff_ffff_ffff_ffff {
        assert(t * t <= 0xffff_ffff_ffff_ffff * 0xffff_ffff_ffff_ffff) by (nonlinear_arith)
            requires
                0 <= t <= 0xffff_ffff_ffff_ffff,
        ;
    } else {
        assert(t * t >= 0x1_0000_0000_0000_0000 * 0x1_0000_0000_0000_0000) by (nonlinear_arith)
            requires
                t >= 0x1_0000_0000_0000_0000,
        ;
    }
}

impl NormBound {
    /// Build a bound from exact norms.
    pub fn from_stats(stats: &NormStats) -> (r: Self)
        ensures
            r.max_l2_sq == stats.l2_sq,
            r.max_linf == stats.linf,
    {
        NormBound { max_l2_sq: stats.l2_sq, max_linf: stats.linf }
    }

    /// Whether a vector satisfies this bound.
    pub fn check<R: NormedRing>(&self, v: &RingVec<R>) -> (b: bool)
        requires
            seq_wf(v@),
        ensures
            b == bound_accepts(*self, v@),
    {
        let stats = NormStats::compute(v);
        stats.l2_sq <= self.max_l2_sq && stats.linf <= self.max_linf
    }

    /// Compose bounds for vector addition: `L∞` bounds add, and `L2` bounds
    /// add as square roots (rounded up), all saturating.
    pub fn compose_add(a: &Self, b: &Self) -> (r: Self)
        ensures
            is_composed_add(*a, *b, r),
    {
        let linf = a.max_linf.saturating_add(b.max_linf);
        let l2_a = int_sqrt_ceil(a.max_l2_sq);
        let l2_b = int_sqrt_ceil(b.max_l2_sq);
        let l2 = l2_a.saturating_add(l2_b);
        let sq = sat_mul_u128(l2, l2);
        proof {
            assert(is_sqrt_ceil(a.max_l2_sq as nat, l2_a as nat) && is_sqrt_ceil(
                b.max_l2_sq as nat,
                l2_b as nat,
            ));
        }
        NormBound { max_l2_sq: sq, max_linf: linf }
    }

    /// Scale a bound by a non-negative scalar (saturating).
    pub fn scale(&self, s: u64) -> (r: Self)
        ensures
            r.max_l2_sq == sat_u128(sat_u128(self.max_l2_sq * s) * s),
            r.max_linf == sat_u64(self.max_linf * s),
    {
        let s128 = s as u128;
        let l2 = sat_mul_u128(sat_mul_u128(self.max_l2_sq, s128), s128);
        let linf = match self.max_linf.checked_mul(s) {
            Some(v) => v,
            None => u64::MAX,
        };
        NormBound { max_l2_sq: l2, max_linf: linf }
    }
}


/// `256^8 = 2^64` and `256^16 = 2^128`.
proof fn lemma_word_pows()
    ensures
        byte_pow(8) == 0x1_0000_0000_0000_0000,
        byte_pow(16) == 0x1_0000_0000_0000_0000_0000_0000_0000_0000,
{
    reveal_with_fuel(byte_pow, 17);
}

impl NormBound {
    /// Every bound is valid.
    pub fn is_valid(&self) -> (b: bool)
        ensures
            b,
    {
        true
    }
}

impl CanonicalSerialize for NormBound {
    /// The squared `L2` bound in sixteen little-endian bytes, then the `L∞` bound in
    /// eight.
    open spec fn encoding(&self) -> Seq<u8> {
        le_encode(self.max_l2_sq as nat, 16) + le_encode(self.max_linf as nat, 8)
    }

    open spec fn can_encode(&self) -> bool {
        true
    }

    fn serialized_size(&self) -> (r: usize) {
        proof {
            lemma_le_encode(self.max_l2_sq as nat, 16);
            lemma_le_encode(self.max_linf as nat, 8);
        }
        24
    }

    fn serialize_into(&self, buf: &mut Vec<u8>) -> (r: Result<(), SerializationError>) {
        let x = self.max_l2_sq;
        let low = (x % 0x1_0000_0000_0000_0000) as u64;
        let high = (x / 0x1_0000_0000_0000_0000) as u64;
        let low_bytes = u64_to_le_bytes(low, 8);
        let high_bytes = u64_to_le_bytes(high, 8);
        let linf_bytes = u64_to_le_bytes(self.max_linf, 8);
        proof {
            lemma_word_pows();
            lemma_le_encode_concat(x as nat, 8, 8);
            let s = le_encode(x as nat, 8);
            lemma_le_encode(x as nat, 8);
            lemma_le_encode_value(s);
            assert(le_encode(x as nat, 16) == low_bytes@ + high_bytes@);
        }
        let ghost start = buf@;
        append_bytes(buf, low_bytes.as_slice());
        append_bytes(buf, high_bytes.as_slice());
        append_bytes(buf, linf_bytes.as_slice());
        proof {
            assert(buf@ =~= start + self.encoding());
        }
        Ok(())
    }
}

impl CanonicalDeserialize for NormBound {
    /// Twenty-four bytes: the squared `L2` bound, then the `L∞` bound.
    open spec fn decodes(data: Seq<u8>, v: Self, n: nat) -> bool {
        &&& n == 24
        &&& 24 <= data.len()
        &&& v.max_l2_sq == le_value(data.subrange(0, 16))
        &&& v.max_linf == le_value(data.subrange(16, 24))
    }

    open spec fn is_short(data: Seq<u8>) -> bool {
        data.len() < 24
    }

    open spec fn decode_ready() -> bool {
        true
    }

    proof fn lemma_decodes_unique(data: Seq<u8>, v1: Self, n1: nat, v2: Self, n2: nat) {
    }

    proof fn lemma_decodes_not_short(data: Seq<u8>, v: Self, n: nat) {
    }

    proof fn lemma_decodes_prefix(data: Seq<u8>, v: Self, n: nat, rest: Seq<u8>) {
        let d2 = data.subrange(0, 24) + rest;
        assert(d2.subrange(0, 16) =~= data.subrange(0, 16));
        assert(d2.subrange(16, 24) =~= data.subrange(16, 24));
        lemma_le_encode_value(data.subrange(0, 16));
        lemma_le_encode_value(data.subrange(16, 24));
        assert(data.subrange(0, 24) =~= data.subrange(0, 16) + data.subrange(16, 24));
    }

    proof fn lemma_round_trip(v: Self, rest: Seq<u8>) {
        lemma_word_pows();
        lemma_le_encode(v.max_l2_sq as nat, 16);
        lemma_le_encode(v.max_linf as nat, 8);
        vstd::arithmetic::div_mod::lemma_small_mod(v.max_l2_sq as nat, byte_pow(16));
        vstd::arithmetic::div_mod::lemma_small_mod(v.max_linf as nat, byte_pow(8));
        let d = v.encoding() + rest;
        assert(d.subrange(0, 16) =~= le_encode(v.max_l2_sq as nat, 16));
        assert(d.subrange(16, 24) =~= le_encode(v.max_linf as nat, 8));
    }

    fn deserialize(data: &[u8]) -> (r: Result<(Self, usize), SerializationError>) {
        if data.len() < 24 {
            proof {
                assert(Self::is_short(data@));
            }
            return Err(SerializationError::UnexpectedEnd);
        }
        let lo = le_bytes_to_u64(data, 0, 8);
        let hi = le_bytes_to_u64(data, 8, 8);
        let linf = le_bytes_to_u64(data, 16, 8);
        proof {
            lemma_word_pows();
            lemma_le_value_concat(data@.subrange(0, 8), data@.subrange(8, 16));
            assert(data@.subrange(0, 8) + data@.subrange(8, 16) =~= data@.subrange(0, 16));
            assert(data@.subrange(8int, 8int + 8) =~= data@.subrange(8, 16));
            assert(data@.subrange(16int, 16int + 8) =~= data@.subrange(16, 24));
        }
        let max_l2_sq = (lo as u128) + (hi as u128) * 0x1_0000_0000_0000_0000u128;
        let v = NormBound { max_l2_sq, max_linf: linf };
        proof {
            assert(le_value(data@.subrange(0, 16)) == lo + byte_pow(8) * hi);
            assert(v.max_l2_sq == le_value(data@.subrange(0, 16)));
            assert(Self::decodes(data@, v, 24));
        }
        Ok((v, 24))
    }
}

/// The two limits of a large bound, in encoding order.
pub open spec fn large_bound_parts<T>(b: LargeNormBound<T>) -> Seq<T> {
    seq![b.max_l2_sq, b.max_linf]
}

/// The encoding of two values is the first's followed by the second's.
proof fn lemma_concat_pair<T: CanonicalSerialize>(a: T, b: T)
    ensures
        concat_encodings(seq![a, b]) == a.encoding() + b.encoding(),
{
    let s = seq![a, b];
    assert(s.skip(1) =~= seq![b]);
    assert(seq![b].skip(1) =~= Seq::<T>::empty());
    assert(concat_encodings(Seq::<T>::empty()) == Seq::<u8>::empty());
    assert(concat_encodings(seq![b]) == b.encoding() + concat_encodings(seq![b].skip(1)));
    assert(b.encoding() + Seq::<u8>::empty() =~= b.encoding());
}

impl<T: CanonicalSerialize> CanonicalSerialize for LargeNormBound<T> {
    /// The squared `L2` limit's encoding, then the `L∞` limit's.
    open spec fn encoding(&self) -> Seq<u8> {
        concat_encodings(large_bound_parts(*self))
    }

    open spec fn can_encode(&self) -> bool {
        &&& self.max_l2_sq.can_encode()
        &&& self.max_linf.can_encode()
        &&& self.max_l2_sq.encoding().len() + self.max_linf.encoding().len() <= usize::MAX
    }

    fn serialized_size(&self) -> (r: usize) {
        proof {
            lemma_concat_pair(self.max_l2_sq, self.max_linf);
        }
        self.max_l2_sq.serialized_size() + self.max_linf.serialized_size()
    }

    fn serialize_into(&self, buf: &mut Vec<u8>) -> (r: Result<(), SerializationError>) {
        proof {
            lemma_concat_pair(self.max_l2_sq, self.max_linf);
        }
        let ghost start = buf@;
        self.max_l2_sq.serialize_into(buf)?;
        self.max_linf.serialize_into(buf)?;
        proof {
            assert(buf@ =~= start + self.encoding());
        }
        Ok(())
    }
}

impl<T: CanonicalDeserialize> CanonicalDeserialize for LargeNormBound<T> {
    /// `data` starts with the two limits' encodings, one after the other.
    open spec fn decodes(data: Seq<u8>, v: Self, n: nat) -> bool {
        n <= usize::MAX && decodes_seq(data, large_bound_parts(v), n)
    }

    open spec fn is_short(data: Seq<u8>) -> bool {
        short_seq::<T>(data, 2)
    }

    open spec fn decode_ready() -> bool {
        T::decode_ready()
    }

    proof fn lemma_decodes_unique(data: Seq<u8>, v1: Self, n1: nat, v2: Self, n2: nat) {
        lemma_seq_offset_unique(data, large_bound_parts(v1), n1, large_bound_parts(v2), n2);
    }

    proof fn lemma_decodes_not_short(data: Seq<u8>, v: Self, n: nat) {
        lemma_seq_not_short(data, large_bound_parts(v), n);
    }

    proof fn lemma_decodes_prefix(data: Seq<u8>, v: Self, n: nat, rest: Seq<u8>) {
        let s = large_bound_parts(v);
        lemma_seq_prefix(data, s, n, rest);
        assert(s[0] == v.max_l2_sq && s[1] == v.max_linf);
        lemma_concat_pair(v.max_l2_sq, v.max_linf);
    }

    proof fn lemma_round_trip(v: Self, rest: Seq<u8>) {
        let s = large_bound_parts(v);
        assert(all_can_encode(s)) by {
            assert forall|i: int| 0 <= i < s.len() implies (#[trigger] s[i]).can_encode() by {
                if i == 0 {
                    assert(s[i] == v.max_l2_sq);
                } else {
                    assert(s[i] == v.max_linf);
                }
            }
        }
        lemma_seq_round_trip(s, rest);
        lemma_concat_pair(v.max_l2_sq, v.max_linf);
    }

    fn deserialize(data: &[u8]) -> (r: Result<(Self, usize), SerializationError>) {
        proof {
            assert(data@.skip(0) =~= data@);
        }
        match deserialize_entries::<T>(data, 0, 2) {
            Ok((entries, consumed)) => {
                let mut entries = entries;
                let ghost parts = entries@;
                let max_linf = entries.pop().unwrap();
                let max_l2_sq = entries.pop().unwrap();
                let v = LargeNormBound { max_l2_sq, max_linf };
                proof {
                    assert(large_bound_parts(v) =~= parts);
                }
                Ok((v, consumed))
            },
            Err(e) => {
                proof {
                    assert(data@.skip(0) == data@);
                    assert(short_seq::<T>(data@.skip(0), 2) == Self::is_short(data@));
                    assert forall|v: Self, n: nat| !Self::decodes(data@, v, n) by {
                        assert(large_bound_parts(v).len() == 2);
                    }
                }
                Err(e)
            },
        }
    }
}

} // verus!
