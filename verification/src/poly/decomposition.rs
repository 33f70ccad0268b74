//! Gadget decomposition utilities.
//!
//! A coefficient with canonical value `v` in `[0, q)` is split into base-`B` digits
//! `v = d_0 + d_1 B + ... + d_{k-1} B^(k-1)`, where `k` is the number of base-`B` digits of
//! `q - 1`; recomposition sums the digits back with the gadget vector `[1, B, B^2, ...]`.
use crate::arith::bigint::{BigUint, lemma_limbs_value_bound, limb_pow};
use crate::arith::large_modulus::{CanonicalValue, LargeCanonicalRing};
use crate::arith::ring::{IntegerRing, Ring, seq_wf};
use vstd::prelude::*;

verus! {

/// `b^t`.
pub open spec fn power(b: nat, t: nat) -> nat
    decreases t,
{
    if t == 0 {
        1
    } else {
        power(b, (t - 1) as nat) * b
    }
}

/// The number of base-`b` digits of `m` (zero for `m = 0`).
pub open spec fn digit_count(m: nat, b: nat) -> nat
    decreases m,
{
    if m == 0 || b < 2 {
        0
    } else {
        proof {
            vstd::arithmetic::div_mod::lemma_div_decreases(m as int, b as int);
        }
        1 + digit_count(m / b, b)
    }
}

/// The number of gadget digits for values up to `m`: its digit count, at least one.
pub open spec fn num_digits_spec(m: nat, b: nat) -> nat {
    if digit_count(m, b) == 0 {
        1
    } else {
        digit_count(m, b)
    }
}

/// `v` with its lowest `t` base-`b` digits dropped: `v / b^t`.
pub open spec fn shifted(v: nat, b: nat, t: nat) -> nat
    decreases t,
{
    if t == 0 {
        v
    } else {
        shifted(v, b, (t - 1) as nat) / b
    }
}

/// Digit `t` of `v` in base `b`.
pub open spec fn gadget_digit(v: nat, b: nat, t: nat) -> nat {
    shifted(v, b, t) % b
}

/// `sum_{t < len} d[t] * b^t`.
pub open spec fn weighted_sum(d: Seq<nat>, b: nat, len: nat) -> nat
    decreases len,
{
    if len == 0 {
        0
    } else {
        weighted_sum(d, b, (len - 1) as nat) + d[len - 1] * power(b, (len - 1) as nat)
    }
}

/// The largest canonical value, `q - 1`.
pub open spec fn max_canonical_spec<R: IntegerRing>() -> nat {
    (R::modulus_spec() - 1) as nat
}

/// The number of digits of `modulus` in base `base`, at least one.
fn num_digits(modulus: u64, base: u64) -> (r: usize)
    requires
        base >= 2,
    ensures
        r == num_digits_spec(modulus as nat, base as nat),
{
    let mut m = modulus;
    let mut digits: usize = 0;
    while m > 0
        invariant
            base >= 2,
            digits + digit_count(m as nat, base as nat) == digit_count(modulus as nat, base as nat),
            digits <= 64,
            m <= modulus,
            digits == 0 ==> m == modulus,
            digits > 0 ==> m * power(base as nat, digits as nat) <= modulus,
        decreases m,
    {
        proof {
            lemma_digit_count_bound(m as nat, base as nat, digits as nat, modulus as nat);
        }
        digits = digits + 1;
        m = m / base;
    }
    if digits == 0 {
        1
    } else {
        digits
    }
}

/// Each digit divides the remaining value by at least `2`, so a 64-bit value has at
/// most 64 digits.
proof fn lemma_digit_count_bound(m: nat, b: nat, digits: nat, modulus: nat)
    requires
        b >= 2,
        m > 0,
        modulus < 0x1_0000_0000_0000_0000,
        digits == 0 ==> m == modulus,
        digits > 0 ==> m * power(b, digits) <= modulus,
    ensures
        digits < 64,
        (m / b) * power(b, digits + 1) <= modulus,
{
    lemma_power_at_least(b, digits);
    if digits >= 64 {
        vstd::arithmetic::power2::lemma2_to64_rest();
        lemma_power_two_pow(b, digits);
        if digits > 64 {
            vstd::arithmetic::power2::lemma_pow2_strictly_increases(64, digits);
        }
        assert(m * power(b, digits) >= power(b, digits)) by (nonlinear_arith)
            requires
                m >= 1,
        ;
    }
    assert(power(b, digits + 1) == power(b, digits) * b);
    vstd::arithmetic::div_mod::lemma_fundamental_div_mod(m as int, b as int);
    assert((m / b) * (power(b, digits) * b) <= m * power(b, digits)) by (nonlinear_arith)
        requires
            m == b * (m / b) + m % b,
            m % b >= 0,
            power(b, digits) >= 1,
    ;
    if digits == 0 {
        assert(power(b, 0) == 1);
    }
}

/// `b^t >= 1` for `b >= 1`.
proof fn lemma_power_at_least(b: nat, t: nat)
    requires
        b >= 1,
    ensures
        power(b, t) >= 1,
    decreases t,
{
    if t > 0 {
        lemma_power_at_least(b, (t - 1) as nat);
        assert(power(b, (t - 1) as nat) * b >= 1) by (nonlinear_arith)
            requires
                power(b, (t - 1) as nat) >= 1,
                b >= 1,
        ;
    }
}

/// `b^t >= 2^t` for `b >= 2`.
proof fn lemma_power_two_pow(b: nat, t: nat)
    requires
        b >= 2,
    ensures
        power(b, t) >= vstd::arithmetic::power2::pow2(t),
    decreases t,
{
    vstd::arithmetic::power2::lemma2_to64();
    if t > 0 {
        lemma_power_two_pow(b, (t - 1) as nat);
        vstd::arithmetic::power2::lemma_pow2_adds((t - 1) as nat, 1);
        assert((t - 1) as nat + 1 == t);
        assert(power(b, (t - 1) as nat) * b >= vstd::arithmetic::power2::pow2((t - 1) as nat) * 2) by (nonlinear_arith)
            requires
                power(b, (t - 1) as nat) >= vstd::arithmetic::power2::pow2((t - 1) as nat),
                b >= 2,
        ;
    }
}

/// The largest canonical value `q - 1` as a 64-bit integer.
fn max_canonical_value<R: IntegerRing>() -> (r: u64)
    requires
        R::params_ok(),
    ensures
        r == max_canonical_spec::<R>(),
{
    proof {
        R::lemma_identity_values();
    }
    let modulus = R::modulus();
    if modulus == 0 {
        u64::MAX
    } else {
        modulus - 1
    }
}


/// The rows of a matrix of vectors, as sequences.
pub open spec fn rows_view<R>(m: Seq<Vec<R>>) -> Seq<Seq<R>> {
    Seq::new(m.len(), |t: int| m[t]@)
}

/// `digits` is the base-`b` gadget decomposition of `x`: one row per digit position
/// `t < k`, where `k` is the digit count of `q - 1`, with entry `i` of row `t` the
/// element whose value is digit `t` of `x[i]`.
pub open spec fn is_gadget_decomposition<R: IntegerRing>(x: Seq<R>, b: nat, digits: Seq<Seq<R>>) -> bool {
    &&& digits.len() == num_digits_spec(max_canonical_spec::<R>(), b)
    &&& forall|t: int| 0 <= t < digits.len() ==> (#[trigger] digits[t]).len() == x.len()
    &&& forall|t: int, i: int|
        0 <= t < digits.len() && 0 <= i < x.len() ==> (#[trigger] digits[t][i]).wf()
            && digits[t][i].value() == gadget_digit(x[i].value(), b, t as nat) % R::modulus_spec()
}

/// The values of column `j` of a digit matrix.
pub open spec fn column_values<R: IntegerRing>(digits: Seq<Seq<R>>, j: int) -> Seq<nat> {
    Seq::new(digits.len(), |t: int| digits[t][j].value())
}


/// Decompose coefficients into base-`B` digits.
pub fn gadget_decompose<R: IntegerRing>(x: &[R], base: u64) -> (out: Vec<Vec<R>>)
    requires
        R::params_ok(),
        base >= 2,
        seq_wf(x@),
    ensures
        is_gadget_decomposition(x@, base as nat, rows_view(out@)),
{
    proof {
        R::lemma_identity_values();
    }
    let k = num_digits(max_canonical_value::<R>(), base);
    let n = x.len();
    let mut values: Vec<u64> = Vec::new();
    let mut i: usize = 0;
    while i < n
        invariant
            R::params_ok(),
            n == x@.len(),
            seq_wf(x@),
            i <= n,
            values@.len() == i,
            forall|j: int| 0 <= j < i ==> #[trigger] values@[j] == x@[j].value(),
        decreases n - i,
    {
        proof {
            R::lemma_value(x@[i as int], x@[i as int]);
            R::lemma_identity_values();
        }
        values.push(x[i].to_u64());
        i = i + 1;
    }
    let mut out: Vec<Vec<R>> = Vec::new();
    let mut t: usize = 0;
    while t < k
        invariant
            R::params_ok(),
            base >= 2,
            n == x@.len(),
            k == num_digits_spec(max_canonical_spec::<R>(), base as nat),
            t <= k,
            out@.len() == t,
            values@.len() == n,
            forall|j: int| 0 <= j < n ==> #[trigger] values@[j] == shifted(x@[j].value(), base as nat, t as nat),
            forall|r: int| 0 <= r < t ==> (#[trigger] out@[r])@.len() == n,
            forall|r: int, j: int|
                0 <= r < t && 0 <= j < n ==> (#[trigger] out@[r]@[j]).wf() && out@[r]@[j].value()
                    == gadget_digit(x@[j].value(), base as nat, r as nat) % R::modulus_spec(),
        decreases k - t,
    {
        let mut row: Vec<R> = Vec::new();
        let mut i: usize = 0;
        while i < n
            invariant
                R::params_ok(),
                base >= 2,
                n == x@.len(),
                i <= n,
                row@.len() == i,
                values@.len() == n,
                forall|j: int| i <= j < n ==> #[trigger] values@[j] == shifted(x@[j].value(), base as nat, t as nat),
                forall|j: int| 0 <= j < i ==> #[trigger] values@[j] == shifted(x@[j].value(), base as nat, (t + 1) as nat),
                forall|j: int|
                    0 <= j < i ==> (#[trigger] row@[j]).wf() && row@[j].value() == gadget_digit(
                        x@[j].value(),
                        base as nat,
                        t as nat,
                    ) % R::modulus_spec(),
            decreases n - i,
        {
            let v = values[i];
            row.push(R::from_u64(v % base));
            values.set(i, v / base);
            i = i + 1;
        }
        out.push(row);
        t = t + 1;
    }
    proof {
        assert(rows_view(out@).len() == k);
    }
    out
}

/// Recompose base-`B` digits into coefficients.
///
/// Entry `j` is `sum_t digits[t][j] * B^t` as an element of the ring. The sums and the
/// place values `B^t` must fit in 64 bits.
pub fn gadget_recompose<R: IntegerRing>(digits: &[Vec<R>], base: u64) -> (out: Vec<R>)
    requires
        R::params_ok(),
        base >= 2,
        digits@.len() > 0 && digits@[0]@.len() > 0 ==> forall|t: int|
            0 <= t < digits@.len() ==> (#[trigger] digits@[t])@.len() == digits@[0]@.len(),
        forall|t: int, j: int|
            0 <= t < digits@.len() && 0 <= j < digits@[t]@.len() ==> (#[trigger] digits@[t]@[j]).wf(),
        digits@.len() > 0 ==> forall|j: int|
            0 <= j < digits@[0]@.len() ==> #[trigger] weighted_sum(
                column_values(rows_view(digits@), j),
                base as nat,
                digits@.len(),
            ) < 0x1_0000_0000_0000_0000,
        digits@.len() > 0 && digits@[0]@.len() > 0 ==> power(base as nat, (digits@.len() - 1) as nat)
            < 0x1_0000_0000_0000_0000,
    ensures
        out@.len() == (if digits@.len() == 0 {
            0
        } else {
            digits@[0]@.len()
        }),
        forall|j: int|
            0 <= j < out@.len() ==> (#[trigger] out@[j]).wf() && out@[j].value() == weighted_sum(
                column_values(rows_view(digits@), j),
                base as nat,
                digits@.len(),
            ) % R::modulus_spec(),
{
    if digits.len() == 0 {
        return Vec::new();
    }
    let n = digits[0].len();
    let k = digits.len();
    let ghost dv = rows_view(digits@);
    let mut out: Vec<R> = Vec::new();
    let mut j: usize = 0;
    proof {
        vstd::arithmetic::power2::lemma2_to64();
    }
    while j < n
        invariant
            R::params_ok(),
            base >= 2,
            k == digits@.len(),
            k > 0,
            n == digits@[0]@.len(),
            dv == rows_view(digits@),
            n > 0 ==> forall|t: int| 0 <= t < k ==> (#[trigger] digits@[t])@.len() == n,
            forall|t: int, j: int| 0 <= t < k && 0 <= j < digits@[t]@.len() ==> (#[trigger] digits@[t]@[j]).wf(),
            j <= n,
            forall|j: int|
                0 <= j < n ==> #[trigger] weighted_sum(column_values(dv, j), base as nat, k as nat)
                    < 0x1_0000_0000_0000_0000,
            out@.len() == j,
            forall|i: int|
                0 <= i < j ==> (#[trigger] out@[i]).wf() && out@[i].value() == weighted_sum(
                    column_values(dv, i),
                    base as nat,
                    k as nat,
                ) % R::modulus_spec(),
        decreases n - j,
    {
        let mut acc: u64 = 0;
        let mut place: u64 = 1;
        let mut idx: usize = 0;
        while idx < k
            invariant
                R::params_ok(),
                base >= 2,
                k == digits@.len(),
                j < n,
                n == digits@[0]@.len(),
                forall|t: int| 0 <= t < k ==> (#[trigger] digits@[t])@.len() == n,
                forall|t: int, j: int| 0 <= t < k && 0 <= j < digits@[t]@.len() ==> (#[trigger] digits@[t]@[j]).wf(),
                dv == rows_view(digits@),
                idx <= k,
                acc == weighted_sum(column_values(dv, j as int), base as nat, idx as nat) % 0x1_0000_0000_0000_0000,
                idx < k ==> place == power(base as nat, idx as nat) % 0x1_0000_0000_0000_0000,
            decreases k - idx,
        {
            proof {
                R::lemma_value(digits@[idx as int]@[j as int], digits@[idx as int]@[j as int]);
                R::lemma_identity_values();
                lemma_wrapping_step(
                    weighted_sum(column_values(dv, j as int), base as nat, idx as nat),
                    column_values(dv, j as int)[idx as int],
                    power(base as nat, idx as nat),
                );
                lemma_wrapping_power(power(base as nat, idx as nat), base as nat);
                assert(column_values(dv, j as int)[idx as int] == digits@[idx as int]@[j as int].value());
            }
            let digit = digits[idx][j].to_u64();
            let prod = digit.wrapping_mul(place);
            acc = acc.wrapping_add(prod);
            if idx + 1 < k {
                place = place.wrapping_mul(base);
            }
            idx = idx + 1;
        }
        proof {
            vstd::arithmetic::div_mod::lemma_small_mod(
                weighted_sum(column_values(dv, j as int), base as nat, k as nat),
                0x1_0000_0000_0000_0000,
            );
        }
        out.push(R::from_u64(acc));
        j = j + 1;
    }
    out
}


/// The canonical values of column `j` of a digit matrix over a large-modulus ring.
pub open spec fn column_values_large<R: LargeCanonicalRing>(digits: Seq<Seq<R>>, j: int) -> Seq<nat> {
    Seq::new(digits.len(), |t: int| digits[t][j].canonical_value())
}

/// `sum_{t <= i < len} d[i] * b^(i - t)`: the digits from position `t` up, as Horner's
/// rule accumulates them from the top.
pub open spec fn upper_sum(d: Seq<nat>, b: nat, t: nat, len: nat) -> nat
    decreases len - t,
{
    if t >= len {
        0
    } else {
        d[t as int] + b * upper_sum(d, b, t + 1, len)
    }
}

/// The full weighted sum splits at position `t` into the lower digits and the upper
/// ones scaled by `b^t`.
proof fn lemma_upper_sum(d: Seq<nat>, b: nat, t: nat, len: nat)
    requires
        t <= len,
    ensures
        weighted_sum(d, b, len) == weighted_sum(d, b, t) + upper_sum(d, b, t, len) * power(b, t),
    decreases len - t,
{
    if t < len {
        lemma_upper_sum(d, b, t + 1, len);
        let u = upper_sum(d, b, t + 1, len);
        let p = power(b, t);
        assert(weighted_sum(d, b, t + 1) == weighted_sum(d, b, t) + d[t as int] * p);
        assert(power(b, t + 1) == p * b);
        assert(u * (p * b) + d[t as int] * p == (d[t as int] + b * u) * p) by (nonlinear_arith);
    } else {
        assert(upper_sum(d, b, t, len) == 0);
        assert(0 * power(b, t) == 0);
    }
}

/// The upper digits, scaled by `b^t`, never exceed the whole sum, so they stay below
/// any bound on it.
proof fn lemma_upper_sum_bound(d: Seq<nat>, b: nat, t: nat, len: nat, bound: nat)
    requires
        b >= 2,
        t <= len,
        weighted_sum(d, b, len) < bound,
    ensures
        upper_sum(d, b, t, len) < bound,
{
    lemma_upper_sum(d, b, t, len);
    lemma_power_at_least(b, t);
    let u = upper_sum(d, b, t, len);
    assert(u <= u * power(b, t)) by (nonlinear_arith)
        requires
            power(b, t) >= 1,
    ;
}

/// Recompose base-`B` digits into coefficients for large-modulus rings whose canonical
/// values are `N`-limb integers.
///
/// Entry `j` is `sum_t digits[t][j] * B^t` reduced modulo `q`. The digits must be below
/// `B` and each column's sum must fit in `N` limbs.
pub fn gadget_recompose_large<R: LargeCanonicalRing<Canonical = BigUint<N>>, const N: usize>(
    digits: &[Vec<R>],
    base: u64,
) -> (out: Vec<R>)
    requires
        R::params_ok(),
        base >= 2,
        N > 0,
        digits@.len() > 0 && digits@[0]@.len() > 0 ==> forall|t: int|
            0 <= t < digits@.len() ==> (#[trigger] digits@[t])@.len() == digits@[0]@.len(),
        forall|t: int, j: int|
            0 <= t < digits@.len() && 0 <= j < digits@[t]@.len() ==> (#[trigger] digits@[t]@[j]).wf()
                && digits@[t]@[j].canonical_value() < base,
        digits@.len() > 0 ==> forall|j: int|
            0 <= j < digits@[0]@.len() ==> #[trigger] weighted_sum(
                column_values_large(rows_view(digits@), j),
                base as nat,
                digits@.len(),
            ) < BigUint::<N>::bound(),
    ensures
        out@.len() == (if digits@.len() == 0 {
            0
        } else {
            digits@[0]@.len()
        }),
        forall|j: int|
            0 <= j < out@.len() ==> (#[trigger] out@[j]).wf() && out@[j].canonical_value() == weighted_sum(
                column_values_large(rows_view(digits@), j),
                base as nat,
                digits@.len(),
            ) % R::canonical_modulus(),
{
    if digits.len() == 0 {
        return Vec::new();
    }
    let n = digits[0].len();
    let k = digits.len();
    let ghost dv = rows_view(digits@);
    let mut out: Vec<R> = Vec::new();
    let mut j: usize = 0;
    while j < n
        invariant
            R::params_ok(),
            base >= 2,
            N > 0,
            k == digits@.len(),
            k > 0,
            n == digits@[0]@.len(),
            dv == rows_view(digits@),
            n > 0 ==> forall|t: int| 0 <= t < k ==> (#[trigger] digits@[t])@.len() == n,
            forall|t: int, j: int|
                0 <= t < k && 0 <= j < digits@[t]@.len() ==> (#[trigger] digits@[t]@[j]).wf()
                    && digits@[t]@[j].canonical_value() < base,
            forall|j: int|
                0 <= j < n ==> #[trigger] weighted_sum(column_values_large(dv, j), base as nat, k as nat)
                    < BigUint::<N>::bound(),
            j <= n,
            out@.len() == j,
            forall|i: int|
                0 <= i < j ==> (#[trigger] out@[i]).wf() && out@[i].canonical_value() == weighted_sum(
                    column_values_large(dv, i),
                    base as nat,
                    k as nat,
                ) % R::canonical_modulus(),
        decreases n - j,
    {
        let ghost col = column_values_large(dv, j as int);
        let mut acc = BigUint::<N>::zero();
        let mut idx: usize = k;
        proof {
            assert(weighted_sum(col, base as nat, k as nat) < BigUint::<N>::bound());
        }
        while idx > 0
            invariant
                R::params_ok(),
                base >= 2,
                N > 0,
                k == digits@.len(),
                j < n,
                n == digits@[0]@.len(),
                forall|t: int| 0 <= t < k ==> (#[trigger] digits@[t])@.len() == n,
                forall|t: int, j: int|
                    0 <= t < k && 0 <= j < digits@[t]@.len() ==> (#[trigger] digits@[t]@[j]).wf()
                        && digits@[t]@[j].canonical_value() < base,
                dv == rows_view(digits@),
                col == column_values_large(dv, j as int),
                weighted_sum(col, base as nat, k as nat) < BigUint::<N>::bound(),
                idx <= k,
                acc.value() == upper_sum(col, base as nat, idx as nat, k as nat),
            decreases idx,
        {
            let t = idx - 1;
            proof {
                lemma_upper_sum_bound(col, base as nat, t as nat, k as nat, BigUint::<N>::bound());
                assert(col[t as int] == digits@[t as int]@[j as int].canonical_value());
                assert(upper_sum(col, base as nat, t as nat, k as nat) == col[t as int] + base * acc.value());
            }
            let (scaled, carry) = acc.mul_by_limb(base);
            proof {
                lemma_limbs_value_bound(scaled.limbs@);
                let bd = BigUint::<N>::bound();
                assert(carry == 0) by (nonlinear_arith)
                    requires
                        scaled.value() + carry * bd == acc.value() * base,
                        acc.value() * base < bd,
                ;
            }
            let digit = match digits[t][j].try_to_u64() {
                Some(d) => d,
                None => {
                    proof {
                        assert(false);
                    }
                    0
                },
            };
            let (next, overflow) = scaled.add_small(digit);
            proof {
                if overflow {
                    assert(false);
                }
            }
            acc = next;
            idx = t;
        }
        proof {
            assert(idx == 0);
            assert(acc.value() == upper_sum(col, base as nat, 0, k as nat));
            lemma_upper_sum(col, base as nat, 0, k as nat);
            assert(weighted_sum(col, base as nat, 0) == 0);
            assert(power(base as nat, 0) == 1);
            let u = upper_sum(col, base as nat, 0, k as nat);
            let p0 = power(base as nat, 0);
            assert(u * p0 == u) by (nonlinear_arith)
                requires
                    p0 == 1,
            ;
            assert(acc.value() == weighted_sum(col, base as nat, k as nat));
        }
        let r = R::from_canonical(&acc);
        proof {
            assert(acc.canonical_nat() == acc.value());
            assert(r.canonical_value() == weighted_sum(col, base as nat, k as nat) % R::canonical_modulus());
        }
        out.push(r);
        j = j + 1;
    }
    out
}


/// A value below `2^e` has at most `e` digits in any base `b >= 2`.
proof fn lemma_digit_count_pow2(v: nat, b: nat, e: nat)
    requires
        b >= 2,
        v < vstd::arithmetic::power2::pow2(e),
    ensures
        digit_count(v, b) <= e,
    decreases v,
{
    if v > 0 {
        vstd::arithmetic::power2::lemma2_to64();
        if e == 0 {
            assert(false);
        } else {
            let e1 = (e - 1) as nat;
            vstd::arithmetic::power2::lemma_pow2_adds(e1, 1);
            assert(e1 + 1 == e);
            let p = vstd::arithmetic::power2::pow2(e1);
            vstd::arithmetic::div_mod::lemma_div_is_ordered_by_denominator(v as int, 2, b as int);
            vstd::arithmetic::div_mod::lemma_fundamental_div_mod(v as int, 2);
            assert(v / 2 < p) by (nonlinear_arith)
                requires
                    v < p * 2,
                    v == 2 * (v / 2) + v % 2,
                    v % 2 >= 0,
            ;
            vstd::arithmetic::div_mod::lemma_div_decreases(v as int, b as int);
            lemma_digit_count_pow2(v / b, b, e1);
        }
    }
}

/// The leading digit of a positive `m` sits at position `digit_count(m) - 1`:
/// `b^(digit_count(m) - 1) <= m`.
proof fn lemma_digit_count_power(m: nat, b: nat)
    requires
        b >= 2,
        m >= 1,
    ensures
        digit_count(m, b) >= 1,
        power(b, (digit_count(m, b) - 1) as nat) <= m,
    decreases m,
{
    vstd::arithmetic::div_mod::lemma_div_decreases(m as int, b as int);
    if m / b == 0 {
        assert(digit_count(m / b, b) == 0);
        assert(power(b, 0) == 1);
    } else {
        lemma_digit_count_power(m / b, b);
        let d = digit_count(m / b, b);
        let p = power(b, (d - 1) as nat);
        assert(power(b, d) == p * b);
        vstd::arithmetic::div_mod::lemma_fundamental_div_mod(m as int, b as int);
        assert(p * b <= m) by (nonlinear_arith)
            requires
                p <= m / b,
                m == b * (m / b) + m % b,
                m % b >= 0,
                b >= 0,
        ;
    }
}

/// The number of digits of `modulus` in base `base`, at least one.
fn num_digits_big<const N: usize>(modulus: BigUint<N>, base: u64) -> (r: usize)
    requires
        base >= 2,
        64 * N <= usize::MAX,
    ensures
        r == num_digits_spec(modulus.value(), base as nat),
{
    proof {
        lemma_limbs_value_bound(modulus.limbs@);
        crate::arith::bigint::lemma_limb_pow_pow2(N as nat);
        lemma_digit_count_pow2(modulus.value(), base as nat, 64 * N as nat);
    }
    let mut m = modulus;
    let mut digits: usize = 0;
    while !m.is_zero()
        invariant
            base >= 2,
            digits + digit_count(m.value(), base as nat) == digit_count(modulus.value(), base as nat),
            digit_count(modulus.value(), base as nat) <= usize::MAX,
        decreases m.value(),
    {
        let (q, rem) = m.div_rem_small(base);
        proof {
            vstd::arithmetic::div_mod::lemma_fundamental_div_mod_converse(
                m.value() as int,
                base as int,
                q.value() as int,
                rem as int,
            );
            vstd::arithmetic::div_mod::lemma_div_decreases(m.value() as int, base as int);
        }
        digits = digits + 1;
        m = q;
    }
    if digits == 0 {
        1
    } else {
        digits
    }
}

/// The largest canonical value `q - 1` of a large-modulus ring, as an `N`-limb integer.
fn max_canonical_value_big<R: LargeCanonicalRing<Canonical = BigUint<N>>, const N: usize>() -> (r: BigUint<N>)
    requires
        R::params_ok(),
    ensures
        r.value() == R::canonical_modulus() - 1,
{
    proof {
        R::lemma_canonical_identities();
        R::lemma_modulus_fits();
        if N == 0 {
            assert(limb_pow(0) == 1);
        }
    }
    let m = R::modulus_canonical();
    proof {
        assert(m.canonical_nat() == m.value());
        if R::canonical_modulus() < BigUint::<N>::bound() {
            vstd::arithmetic::div_mod::lemma_small_mod(R::canonical_modulus(), BigUint::<N>::bound());
        } else {
            vstd::arithmetic::div_mod::lemma_mod_self_0(BigUint::<N>::bound() as int);
        }
    }
    let (max, borrow) = m.sub_small(1);
    max
}

/// `digits` is the base-`b` gadget decomposition of `x` over a large-modulus ring: one
/// row per digit position `t < k`, where `k` is the digit count of `q - 1`, with entry
/// `i` of row `t` the element whose value is digit `t` of `x[i]`.
pub open spec fn is_gadget_decomposition_large<R: LargeCanonicalRing>(
    x: Seq<R>,
    b: nat,
    digits: Seq<Seq<R>>,
) -> bool {
    &&& digits.len() == num_digits_spec((R::canonical_modulus() - 1) as nat, b)
    &&& forall|t: int| 0 <= t < digits.len() ==> (#[trigger] digits[t]).len() == x.len()
    &&& forall|t: int, i: int|
        0 <= t < digits.len() && 0 <= i < x.len() ==> (#[trigger] digits[t][i]).wf()
            && digits[t][i].canonical_value() == gadget_digit(x[i].canonical_value(), b, t as nat)
            % R::canonical_modulus()
}

/// Decompose coefficients into base-`B` digits for large-modulus rings whose canonical
/// values are `N`-limb integers.
pub fn gadget_decompose_large<R: LargeCanonicalRing<Canonical = BigUint<N>>, const N: usize>(
    x: &[R],
    base: u64,
) -> (out: Vec<Vec<R>>)
    requires
        R::params_ok(),
        base >= 2,
        seq_wf(x@),
        64 * N <= usize::MAX,
    ensures
        is_gadget_decomposition_large(x@, base as nat, rows_view(out@)),
{
    proof {
        R::lemma_canonical_identities();
        R::lemma_modulus_fits();
        if N == 0 {
            assert(limb_pow(0) == 1);
        }
    }
    let k = num_digits_big(max_canonical_value_big::<R, N>(), base);
    let n = x.len();
    let mut values: Vec<BigUint<N>> = Vec::new();
    let mut i: usize = 0;
    while i < n
        invariant
            n == x@.len(),
            seq_wf(x@),
            i <= n,
            values@.len() == i,
            forall|j: int| 0 <= j < i ==> #[trigger] values@[j].value() == x@[j].canonical_value(),
        decreases n - i,
    {
        let c = x[i].to_canonical();
        proof {
            assert(c.canonical_nat() == c.value());
        }
        values.push(c);
        i = i + 1;
    }
    let mut out: Vec<Vec<R>> = Vec::new();
    let mut t: usize = 0;
    while t < k
        invariant
            R::params_ok(),
            base >= 2,
            n == x@.len(),
            k == num_digits_spec((R::canonical_modulus() - 1) as nat, base as nat),
            t <= k,
            out@.len() == t,
            values@.len() == n,
            forall|j: int|
                0 <= j < n ==> #[trigger] values@[j].value() == shifted(x@[j].canonical_value(), base as nat, t as nat),
            forall|r: int| 0 <= r < t ==> (#[trigger] out@[r])@.len() == n,
            forall|r: int, j: int|
                0 <= r < t && 0 <= j < n ==> (#[trigger] out@[r]@[j]).wf() && out@[r]@[j].canonical_value()
                    == gadget_digit(x@[j].canonical_value(), base as nat, r as nat) % R::canonical_modulus(),
        decreases k - t,
    {
        let mut row: Vec<R> = Vec::new();
        let mut i: usize = 0;
        while i < n
            invariant
                R::params_ok(),
                base >= 2,
                n == x@.len(),
                i <= n,
                row@.len() == i,
                values@.len() == n,
                forall|j: int|
                    i <= j < n ==> #[trigger] values@[j].value() == shifted(x@[j].canonical_value(), base as nat, t as nat),
                forall|j: int|
                    0 <= j < i ==> #[trigger] values@[j].value() == shifted(
                        x@[j].canonical_value(),
                        base as nat,
                        (t + 1) as nat,
                    ),
                forall|j: int|
                    0 <= j < i ==> (#[trigger] row@[j]).wf() && row@[j].canonical_value() == gadget_digit(
                        x@[j].canonical_value(),
                        base as nat,
                        t as nat,
                    ) % R::canonical_modulus(),
            decreases n - i,
        {
            let v = values[i];
            let (quot, rem) = v.div_rem_small(base);
            proof {
                vstd::arithmetic::div_mod::lemma_fundamental_div_mod_converse(
                    v.value() as int,
                    base as int,
                    quot.value() as int,
                    rem as int,
                );
            }
            row.push(R::from_small_u64(rem));
            values.set(i, quot);
            i = i + 1;
        }
        out.push(row);
        t = t + 1;
    }
    proof {
        assert(rows_view(out@).len() == k);
    }
    out
}

/// Return the gadget vector `[1, B, B^2, ...]` for large-modulus rings whose canonical
/// values are `N`-limb integers: entry `i` is `B^i mod q`.
pub fn gadget_vector_large<R: LargeCanonicalRing<Canonical = BigUint<N>>, const N: usize>(base: u64) -> (out: Vec<R>)
    requires
        R::params_ok(),
        base >= 2,
        64 * N <= usize::MAX,
    ensures
        out@.len() == num_digits_spec((R::canonical_modulus() - 1) as nat, base as nat),
        forall|i: int|
            0 <= i < out@.len() ==> (#[trigger] out@[i]).wf() && out@[i].canonical_value() == power(
                base as nat,
                i as nat,
            ) % R::canonical_modulus(),
{
    proof {
        R::lemma_canonical_identities();
        R::lemma_modulus_fits();
        if N == 0 {
            assert(limb_pow(0) == 1);
        }
    }
    let ghost m = (R::canonical_modulus() - 1) as nat;
    let k = num_digits_big(max_canonical_value_big::<R, N>(), base);
    proof {
        lemma_digit_count_power(m, base as nat);
        assert(k == digit_count(m, base as nat));
    }
    let mut out: Vec<R> = Vec::new();
    let mut value = BigUint::<N>::one();
    let mut i: usize = 0;
    proof {
        assert(power(base as nat, 0) == 1);
    }
    while i < k
        invariant
            R::params_ok(),
            base >= 2,
            N > 0,
            k >= 1,
            power(base as nat, (k - 1) as nat) <= m,
            m < BigUint::<N>::bound(),
            i <= k,
            out@.len() == i,
            i < k ==> value.value() == power(base as nat, i as nat),
            forall|t: int|
                0 <= t < i ==> (#[trigger] out@[t]).wf() && out@[t].canonical_value() == power(
                    base as nat,
                    t as nat,
                ) % R::canonical_modulus(),
        decreases k - i,
    {
        let r = R::from_canonical(&value);
        proof {
            assert(value.canonical_nat() == value.value());
        }
        out.push(r);
        if i + 1 < k {
            let (next, carry) = value.mul_by_limb(base);
            proof {
                lemma_power_mono(base as nat, (i + 1) as nat, (k - 1) as nat);
                assert(power(base as nat, (i + 1) as nat) == power(base as nat, i as nat) * base);
                lemma_limbs_value_bound(next.limbs@);
                let bd = BigUint::<N>::bound();
                assert(carry == 0) by (nonlinear_arith)
                    requires
                        next.value() + carry * bd == value.value() * base,
                        value.value() * base < bd,
                ;
            }
            value = next;
        }
        i = i + 1;
    }
    out
}

/// `b^s <= b^t` for `s <= t` and `b >= 1`.
proof fn lemma_power_mono(b: nat, s: nat, t: nat)
    requires
        b >= 1,
        s <= t,
    ensures
        power(b, s) <= power(b, t),
    decreases t - s,
{
    if s < t {
        lemma_power_mono(b, s, (t - 1) as nat);
        lemma_power_at_least(b, (t - 1) as nat);
        let p = power(b, (t - 1) as nat);
        assert(p <= p * b) by (nonlinear_arith)
            requires
                b >= 1,
        ;
    }
}

/// Recomposing the gadget decomposition of `x` over a large-modulus ring gives back `x`:
/// every digit is below `b`, and the weighted digit sum of each column is exactly the
/// coefficient's canonical value.
pub proof fn lemma_gadget_round_trip_large<R: LargeCanonicalRing>(x: Seq<R>, b: nat, digits: Seq<Seq<R>>)
    requires
        R::params_ok(),
        b >= 2,
        seq_wf(x),
        is_gadget_decomposition_large(x, b, digits),
    ensures
        forall|t: int, i: int|
            0 <= t < digits.len() && 0 <= i < x.len() ==> (#[trigger] digits[t][i]).canonical_value() < b,
        forall|j: int|
            0 <= j < x.len() ==> #[trigger] weighted_sum(column_values_large(digits, j), b, digits.len())
                == x[j].canonical_value(),
{
    R::lemma_canonical_identities();
    let q = R::canonical_modulus();
    let k = digits.len();
    let m = (q - 1) as nat;
    lemma_shifted_count(m, b);
    lemma_shifted_zero(m, b, digit_count(m, b), k);
    assert forall|t: int, i: int| 0 <= t < digits.len() && 0 <= i < x.len() implies (
    #[trigger] digits[t][i]).canonical_value() < b by {
        R::lemma_canonical(x[i], x[i]);
        vstd::arithmetic::div_mod::lemma_mod_decreases(shifted(x[i].canonical_value(), b, t as nat), b);
        vstd::arithmetic::div_mod::lemma_mod_bound(gadget_digit(x[i].canonical_value(), b, t as nat) as int, q as int);
        vstd::arithmetic::div_mod::lemma_mod_pos_bound(shifted(x[i].canonical_value(), b, t as nat) as int, b as int);
        vstd::arithmetic::div_mod::lemma_mod_self_0(q as int);
        if gadget_digit(x[i].canonical_value(), b, t as nat) < q {
            vstd::arithmetic::div_mod::lemma_small_mod(gadget_digit(x[i].canonical_value(), b, t as nat), q);
        } else {
            vstd::arithmetic::div_mod::lemma_mod_decreases(gadget_digit(x[i].canonical_value(), b, t as nat), q);
        }
    }
    assert forall|j: int| 0 <= j < x.len() implies #[trigger] weighted_sum(column_values_large(digits, j), b, k)
        == x[j].canonical_value() by {
        let v = x[j].canonical_value();
        R::lemma_canonical(x[j], x[j]);
        let col = column_values_large(digits, j);
        assert forall|t: int| 0 <= t < k implies #[trigger] col[t] == gadget_digit(v, b, t as nat) by {
            lemma_shifted_le(v, b, t as nat);
            assert(gadget_digit(v, b, t as nat) <= shifted(v, b, t as nat)) by {
                vstd::arithmetic::div_mod::lemma_mod_decreases(shifted(v, b, t as nat), b);
            }
            vstd::arithmetic::div_mod::lemma_small_mod(gadget_digit(v, b, t as nat), q);
        }
        lemma_expansion(v, b, col, k);
        lemma_shifted_mono(v, m, b, k);
        let sk = shifted(v, b, k);
        let pk = power(b, k);
        assert(sk == 0);
        assert(sk * pk == 0) by (nonlinear_arith)
            requires
                sk == 0,
        ;
    }
}

/// A large gadget decomposition of valid coefficients, held as rows of vectors, meets
/// every demand of recomposition when the modulus fits in `N` limbs: there is at least
/// one limb and one row, every row has one digit per coefficient, every digit is valid
/// and below `b`, and every column sum, being a coefficient's value, is below
/// `2^(64 N)`.
pub proof fn lemma_gadget_large_recomposable<R: LargeCanonicalRing<Canonical = BigUint<N>>, const N: usize>(
    x: Seq<R>,
    b: nat,
    digits: Seq<Vec<R>>,
)
    requires
        R::params_ok(),
        b >= 2,
        seq_wf(x),
        is_gadget_decomposition_large(x, b, rows_view(digits)),
    ensures
        N > 0,
        digits.len() > 0,
        forall|t: int| 0 <= t < digits.len() ==> (#[trigger] digits[t])@.len() == x.len(),
        forall|t: int, i: int|
            0 <= t < digits.len() && 0 <= i < digits[t]@.len() ==> (#[trigger] digits[t]@[i]).wf()
                && digits[t]@[i].canonical_value() < b,
        forall|j: int|
            0 <= j < x.len() ==> #[trigger] weighted_sum(column_values_large(rows_view(digits), j), b, digits.len())
                < BigUint::<N>::bound(),
{
    let dv = rows_view(digits);
    R::lemma_canonical_identities();
    R::lemma_modulus_fits();
    if N == 0 {
        assert(limb_pow(0) == 1);
    }
    lemma_gadget_round_trip_large(x, b, dv);
    assert forall|t: int| 0 <= t < digits.len() implies (#[trigger] digits[t])@.len() == x.len() by {
        assert(dv[t] == digits[t]@);
    }
    assert forall|t: int, i: int|
        0 <= t < digits.len() && 0 <= i < digits[t]@.len() implies (#[trigger] digits[t]@[i]).wf()
            && digits[t]@[i].canonical_value() < b by {
        assert(dv[t] == digits[t]@);
        assert(dv[t][i] == digits[t]@[i]);
    }
    assert forall|j: int| 0 <= j < x.len() implies #[trigger] weighted_sum(column_values_large(dv, j), b, digits.len())
        < BigUint::<N>::bound() by {
        R::lemma_canonical(x[j], x[j]);
    }
}

/// Recomposition undoes large gadget decomposition: elements valid with the values that
/// recomposition promises for the digits of `x` are the coefficients of `x` themselves.
pub proof fn lemma_gadget_round_trip_large_elements<R: LargeCanonicalRing>(
    x: Seq<R>,
    b: nat,
    digits: Seq<Seq<R>>,
    out: Seq<R>,
)
    requires
        R::params_ok(),
        b >= 2,
        seq_wf(x),
        is_gadget_decomposition_large(x, b, digits),
        out.len() == x.len(),
        forall|j: int|
            0 <= j < out.len() ==> (#[trigger] out[j]).wf() && out[j].canonical_value() == weighted_sum(
                column_values_large(digits, j),
                b,
                digits.len(),
            ) % R::canonical_modulus(),
    ensures
        out == x,
{
    lemma_gadget_round_trip_large(x, b, digits);
    assert forall|j: int| 0 <= j < x.len() implies out[j] == x[j] by {
        R::lemma_canonical(x[j], x[j]);
        vstd::arithmetic::div_mod::lemma_small_mod(x[j].canonical_value(), R::canonical_modulus());
        R::lemma_canonical(out[j], x[j]);
    }
    assert(out =~= x);
}

/// Recomposition undoes 64-bit gadget decomposition: elements valid with the values that
/// recomposition promises for the digits of `x` are the coefficients of `x` themselves.
pub proof fn lemma_gadget_round_trip_elements<R: IntegerRing>(x: Seq<R>, b: nat, digits: Seq<Seq<R>>, out: Seq<R>)
    requires
        R::params_ok(),
        b >= 2,
        seq_wf(x),
        is_gadget_decomposition(x, b, digits),
        out.len() == x.len(),
        forall|j: int|
            0 <= j < out.len() ==> (#[trigger] out[j]).wf() && out[j].value() == weighted_sum(
                column_values(digits, j),
                b,
                digits.len(),
            ) % R::modulus_spec(),
    ensures
        out == x,
{
    lemma_gadget_round_trip(x, b, digits);
    assert forall|j: int| 0 <= j < x.len() implies out[j] == x[j] by {
        R::lemma_value(x[j], x[j]);
        vstd::arithmetic::div_mod::lemma_small_mod(x[j].value(), R::modulus_spec());
        R::lemma_value(out[j], x[j]);
    }
    assert(out =~= x);
}

/// A 64-bit gadget decomposition of valid coefficients, held as rows of vectors, meets
/// every demand of recomposition: every row has one digit per coefficient, every digit
/// is valid, every column sum is a coefficient's value and so below `2^64`, and the
/// place values of the rows stay below `2^64`.
pub proof fn lemma_gadget_recomposable<R: IntegerRing>(x: Seq<R>, b: nat, digits: Seq<Vec<R>>)
    requires
        R::params_ok(),
        b >= 2,
        seq_wf(x),
        is_gadget_decomposition(x, b, rows_view(digits)),
    ensures
        digits.len() > 0,
        forall|t: int| 0 <= t < digits.len() ==> (#[trigger] digits[t])@.len() == x.len(),
        forall|t: int, i: int| 0 <= t < digits.len() && 0 <= i < digits[t]@.len() ==> (#[trigger] digits[t]@[i]).wf(),
        forall|j: int|
            0 <= j < x.len() ==> #[trigger] weighted_sum(column_values(rows_view(digits), j), b, digits.len())
                < 0x1_0000_0000_0000_0000,
        power(b, (digits.len() - 1) as nat) < 0x1_0000_0000_0000_0000,
{
    let dv = rows_view(digits);
    R::lemma_identity_values();
    lemma_gadget_round_trip(x, b, dv);
    assert forall|t: int| 0 <= t < digits.len() implies (#[trigger] digits[t])@.len() == x.len() by {
        assert(dv[t] == digits[t]@);
    }
    assert forall|t: int, i: int| 0 <= t < digits.len() && 0 <= i < digits[t]@.len() implies (#[trigger] digits[t]@[i]).wf() by {
        assert(dv[t] == digits[t]@);
        assert(dv[t][i] == digits[t]@[i]);
    }
    assert forall|j: int| 0 <= j < x.len() implies #[trigger] weighted_sum(column_values(dv, j), b, digits.len())
        < 0x1_0000_0000_0000_0000 by {
        R::lemma_value(x[j], x[j]);
    }
}

/// One wrapped step of the recomposition sum: adding `d * (p mod 2^64)` modulo `2^64` to
/// `s mod 2^64` gives `(s + d p) mod 2^64`.
proof fn lemma_wrapping_step(s: nat, d: nat, p: nat)
    ensures
        ((s % 0x1_0000_0000_0000_0000) + (d * (p % 0x1_0000_0000_0000_0000)) % 0x1_0000_0000_0000_0000)
            % 0x1_0000_0000_0000_0000 == (s + d * p) % 0x1_0000_0000_0000_0000,
{
    let m: int = 0x1_0000_0000_0000_0000;
    vstd::arithmetic::div_mod::lemma_mul_mod_noop_right(d as int, p as int, m);
    vstd::arithmetic::div_mod::lemma_add_mod_noop(s as int, (d * p) as int, m);
}

/// `((p mod 2^64) * b) mod 2^64 = (p * b) mod 2^64`.
proof fn lemma_wrapping_power(p: nat, b: nat)
    ensures
        ((p % 0x1_0000_0000_0000_0000) * b) % 0x1_0000_0000_0000_0000 == (p * b) % 0x1_0000_0000_0000_0000,
{
    vstd::arithmetic::div_mod::lemma_mul_mod_noop_left(p as int, b as int, 0x1_0000_0000_0000_0000);
}

/// Return the gadget vector `[1, B, B^2, ...]`.
///
/// Entry `i` is `B^i` computed with 64-bit wrapping arithmetic, as an element of the ring.
pub fn gadget_vector<R: IntegerRing>(base: u64) -> (out: Vec<R>)
    requires
        R::params_ok(),
        base >= 2,
    ensures
        out@.len() == num_digits_spec(max_canonical_spec::<R>(), base as nat),
        forall|i: int|
            0 <= i < out@.len() ==> (#[trigger] out@[i]).wf() && out@[i].value() == (power(base as nat, i as nat)
                % 0x1_0000_0000_0000_0000) % R::modulus_spec(),
{
    let k = num_digits(max_canonical_value::<R>(), base);
    let mut out: Vec<R> = Vec::new();
    let mut value: u64 = 1;
    let mut i: usize = 0;
    while i < k
        invariant
            R::params_ok(),
            i <= k,
            out@.len() == i,
            value == power(base as nat, i as nat) % 0x1_0000_0000_0000_0000,
            forall|t: int|
                0 <= t < i ==> (#[trigger] out@[t]).wf() && out@[t].value() == (power(base as nat, t as nat)
                    % 0x1_0000_0000_0000_0000) % R::modulus_spec(),
        decreases k - i,
    {
        out.push(R::from_u64(value));
        proof {
            lemma_wrapping_power(power(base as nat, i as nat), base as nat);
        }
        value = value.wrapping_mul(base);
        i = i + 1;
    }
    out
}


/// Dropping digits never increases a value.
proof fn lemma_shifted_le(v: nat, b: nat, t: nat)
    requires
        b >= 2,
    ensures
        shifted(v, b, t) <= v,
    decreases t,
{
    if t > 0 {
        lemma_shifted_le(v, b, (t - 1) as nat);
        vstd::arithmetic::div_mod::lemma_div_is_ordered_by_denominator(shifted(v, b, (t - 1) as nat) as int, 1, b as int);
    }
}

/// Dropping digits is monotone in the value.
proof fn lemma_shifted_mono(v: nat, m: nat, b: nat, t: nat)
    requires
        b >= 2,
        v <= m,
    ensures
        shifted(v, b, t) <= shifted(m, b, t),
    decreases t,
{
    if t > 0 {
        lemma_shifted_mono(v, m, b, (t - 1) as nat);
        vstd::arithmetic::div_mod::lemma_div_is_ordered(
            shifted(v, b, (t - 1) as nat) as int,
            shifted(m, b, (t - 1) as nat) as int,
            b as int,
        );
    }
}

/// One more dropped digit divides by `b` once more.
proof fn lemma_shifted_unfold(m: nat, b: nat, t: nat)
    requires
        t > 0,
    ensures
        shifted(m, b, t) == shifted(m, b, (t - 1) as nat) / b,
{
}

/// Dropping `t + 1` digits is dropping the lowest digit, then `t` more.
proof fn lemma_shifted_peel(m: nat, b: nat, t: nat)
    ensures
        shifted(m, b, t + 1) == shifted(m / b, b, t),
    decreases t,
{
    lemma_shifted_unfold(m, b, t + 1);
    if t > 0 {
        lemma_shifted_peel(m, b, (t - 1) as nat);
        lemma_shifted_unfold(m / b, b, t);
        assert(((t - 1) as nat + 1) as nat == t);
    }
}

/// Once every digit is dropped, the value stays zero.
proof fn lemma_shifted_zero(m: nat, b: nat, t: nat, u: nat)
    requires
        b >= 2,
        shifted(m, b, t) == 0,
        t <= u,
    ensures
        shifted(m, b, u) == 0,
    decreases u - t,
{
    if u > t {
        lemma_shifted_zero(m, b, t, (u - 1) as nat);
    }
}

/// Dropping as many digits as `m` has leaves zero.
proof fn lemma_shifted_count(m: nat, b: nat)
    requires
        b >= 2,
    ensures
        shifted(m, b, digit_count(m, b)) == 0,
    decreases m,
{
    if m > 0 {
        vstd::arithmetic::div_mod::lemma_div_decreases(m as int, b as int);
        lemma_shifted_count(m / b, b);
        lemma_shifted_peel(m, b, digit_count(m / b, b));
    }
}

/// The base-`b` expansion: the weighted sum of the lowest `k` digits of `v`, plus the
/// dropped part times `b^k`, is `v`.
proof fn lemma_expansion(v: nat, b: nat, d: Seq<nat>, k: nat)
    requires
        b >= 2,
        k <= d.len(),
        forall|t: int| 0 <= t < k ==> #[trigger] d[t] == gadget_digit(v, b, t as nat),
    ensures
        weighted_sum(d, b, k) + shifted(v, b, k) * power(b, k) == v,
    decreases k,
{
    if k > 0 {
        let k1 = (k - 1) as nat;
        lemma_expansion(v, b, d, k1);
        let s = shifted(v, b, k1);
        vstd::arithmetic::div_mod::lemma_fundamental_div_mod(s as int, b as int);
        let p = power(b, k1);
        let q = s / b;
        let r = s % b;
        lemma_shifted_unfold(v, b, k);
        assert(d[k1 as int] == r);
        let w = weighted_sum(d, b, k1);
        assert(weighted_sum(d, b, k) == w + r * p);
        assert(power(b, k) == p * b);
        lemma_expansion_step(w, s, p, b, q, r, v);
        assert(shifted(v, b, k) == q);
        let sk = shifted(v, b, k);
        let pk = power(b, k);
        assert(sk * pk == q * (p * b));
    } else {
        assert(power(b, 0) == 1);
        assert(shifted(v, b, 0) == v);
        assert(v * 1 == v);
    }
}

/// `w + s p = v` and `s = b q + r` give `(w + r p) + q (p b) = v`.
proof fn lemma_expansion_step(w: nat, s: nat, p: nat, b: nat, q: nat, r: nat, v: nat)
    requires
        w + s * p == v,
        s == b * q + r,
    ensures
        (w + r * p) + q * (p * b) == v,
{
    assert(s * p == q * (p * b) + r * p) by (nonlinear_arith)
        requires
            s == b * q + r,
    ;
}

/// Recomposing the gadget decomposition of `x` gives back `x`: the weighted digit sum of
/// each column is exactly the coefficient's value, and the place values `b^t` of the
/// digit rows stay below `2^64`.
pub proof fn lemma_gadget_round_trip<R: IntegerRing>(x: Seq<R>, b: nat, digits: Seq<Seq<R>>)
    requires
        R::params_ok(),
        b >= 2,
        seq_wf(x),
        is_gadget_decomposition(x, b, digits),
    ensures
        digits.len() >= 1,
        power(b, (digits.len() - 1) as nat) < 0x1_0000_0000_0000_0000,
        forall|j: int|
            0 <= j < x.len() ==> #[trigger] weighted_sum(column_values(digits, j), b, digits.len()) == x[j].value(),
{
    R::lemma_identity_values();
    let q = R::modulus_spec();
    let k = digits.len();
    let m = max_canonical_spec::<R>();
    lemma_shifted_count(m, b);
    lemma_shifted_zero(m, b, digit_count(m, b), k);
    lemma_digit_count_power(m, b);
    assert forall|j: int| 0 <= j < x.len() implies #[trigger] weighted_sum(column_values(digits, j), b, k) == x[j].value() by {
        let v = x[j].value();
        R::lemma_value(x[j], x[j]);
        let col = column_values(digits, j);
        assert forall|t: int| 0 <= t < k implies #[trigger] col[t] == gadget_digit(v, b, t as nat) by {
            lemma_shifted_le(v, b, t as nat);
            assert(gadget_digit(v, b, t as nat) <= shifted(v, b, t as nat)) by {
                vstd::arithmetic::div_mod::lemma_mod_decreases(shifted(v, b, t as nat), b);
            }
            vstd::arithmetic::div_mod::lemma_small_mod(gadget_digit(v, b, t as nat), q);
        }
        lemma_expansion(v, b, col, k);
        lemma_shifted_mono(v, m, b, k);
        let sk = shifted(v, b, k);
        let pk = power(b, k);
        assert(sk == 0);
        assert(sk * pk == 0) by (nonlinear_arith)
            requires
                sk == 0,
        ;
    }
}

} // verus!
