//! `NTTRing` trait — marks coefficient rings whose modulus supports the Number Theoretic
//! Transform — and the iterative radix-2 NTT over such rings.
//!
//! The forward transform permutes its input into bit-reversed order and then runs
//! Cooley–Tukey butterfly stages of growing length; the inverse runs Gentleman–Sande
//! stages of shrinking length, scales by `n^{-1}` in the last stage, and permutes back.
use crate::arith::large_modulus::LargeCanonicalRing;
use crate::arith::ring::{IntegerRing, Ring, pow_spec, ring_pow, seq_wf};
use vstd::arithmetic::power2::{lemma_pow2_adds, lemma_pow2_pos, pow2};
use vstd::prelude::*;

verus! {

/// Errors raised by NTT helpers.
#[derive(Debug, Clone, Copy, PartialEq, Eq)]
pub enum NttError {
    /// Polynomial/vector lengths do not match.
    LengthMismatch { left: usize, right: usize },
    /// The provided length is not a power of two.
    LengthNotPowerOfTwo { len: usize },
    /// The coefficient ring does not support the requested NTT size.
    UnsupportedSize { len: usize },
    /// The coefficient ring does not support the required `2n`-th twist.
    UnsupportedTwist { len: usize },
}

/// `n` is a power of two.
pub open spec fn is_pow2(n: nat) -> bool
    decreases n,
{
    if n == 0 {
        false
    } else if n == 1 {
        true
    } else {
        n % 2 == 0 && is_pow2(n / 2)
    }
}

/// `log2(n)` for a power of two `n`.
pub open spec fn log2(n: nat) -> nat
    decreases n,
{
    if n <= 1 {
        0
    } else {
        1 + log2(n / 2)
    }
}

/// A power of two is `2^log2(n)`.
pub proof fn lemma_pow2_log2(n: nat)
    requires
        is_pow2(n),
    ensures
        pow2(log2(n)) == n,
    decreases n,
{
    if n > 1 {
        lemma_pow2_log2(n / 2);
        vstd::arithmetic::power2::lemma2_to64();
        lemma_pow2_adds(1, log2(n / 2));
    } else {
        vstd::arithmetic::power2::lemma2_to64();
    }
}

/// The `k`-bit reversal of `i`.
pub open spec fn rev(i: nat, k: nat) -> nat
    decreases k,
{
    if k == 0 {
        0
    } else {
        (i % 2) * pow2((k - 1) as nat) + rev(i / 2, (k - 1) as nat)
    }
}

/// Bit reversal stays below `2^k`.
pub proof fn lemma_rev_bound(i: nat, k: nat)
    ensures
        rev(i, k) < pow2(k),
    decreases k,
{
    if k == 0 {
        vstd::arithmetic::power2::lemma2_to64();
    } else {
        lemma_rev_bound(i / 2, (k - 1) as nat);
        lemma_pow2_adds(1, (k - 1) as nat);
        vstd::arithmetic::power2::lemma2_to64();
        assert(1 + (k - 1) as nat == k);
        let p = pow2((k - 1) as nat);
        assert((i % 2) * p <= p) by (nonlinear_arith)
            requires
                i % 2 <= 1,
                p >= 0,
        ;
    }
}

/// Reversing a value whose top bit is `b` over `m + 1` bits.
proof fn lemma_rev_top(b: nat, y: nat, m: nat)
    requires
        b <= 1,
        y < pow2(m),
    ensures
        rev(b * pow2(m) + y, m + 1) == 2 * rev(y, m) + b,
    decreases m,
{
    vstd::arithmetic::power2::lemma2_to64();
    if m == 0 {
        assert(y == 0);
        assert(b * 1 == b);
        assert(b % 2 == b && b / 2 == 0);
        assert(rev(b, 1) == (b % 2) * pow2(0) + rev(b / 2, 0));
    } else {
        let x = b * pow2(m) + y;
        lemma_pow2_adds(1, (m - 1) as nat);
        assert(1 + (m - 1) as nat == m);
        let h = pow2((m - 1) as nat);
        assert(pow2(m) == 2 * h);
        vstd::arithmetic::div_mod::lemma_fundamental_div_mod(y as int, 2);
        let q = b * h + y / 2;
        assert(x == q * 2 + y % 2) by (nonlinear_arith)
            requires
                x == b * (2 * h) + y,
                y == 2 * (y / 2) + y % 2,
                q == b * h + y / 2,
        ;
        vstd::arithmetic::div_mod::lemma_fundamental_div_mod_converse(x as int, 2, q as int, (y % 2) as int);
        assert(y / 2 < h) by (nonlinear_arith)
            requires
                y < 2 * h,
        ;
        lemma_rev_top(b, y / 2, (m - 1) as nat);
        assert(rev(x, m + 1) == (x % 2) * pow2(m) + rev(x / 2, m));
        assert(rev(y, m) == (y % 2) * pow2((m - 1) as nat) + rev(y / 2, (m - 1) as nat));
        assert((y % 2) * (2 * h) == 2 * ((y % 2) * h)) by (nonlinear_arith);
    }
}

/// Bit reversal is an involution on `k`-bit values.
pub proof fn lemma_rev_involution(i: nat, k: nat)
    requires
        i < pow2(k),
    ensures
        rev(rev(i, k), k) == i,
    decreases k,
{
    vstd::arithmetic::power2::lemma2_to64();
    if k > 0 {
        let a = i / 2;
        let b = i % 2;
        lemma_pow2_adds(1, (k - 1) as nat);
        assert(1 + (k - 1) as nat == k);
        assert(a < pow2((k - 1) as nat)) by (nonlinear_arith)
            requires
                i < 2 * pow2((k - 1) as nat),
                a == i / 2,
        ;
        lemma_rev_involution(a, (k - 1) as nat);
        lemma_rev_bound(a, (k - 1) as nat);
        lemma_rev_top(b, rev(a, (k - 1) as nat), (k - 1) as nat);
        assert(i == 2 * a + b);
    }
}

/// `x` with entry `k` taken from entry `rev(k)`.
pub open spec fn bitrev_seq<R>(x: Seq<R>, logn: nat) -> Seq<R> {
    Seq::new(x.len(), |k: int| x[rev(k as nat, logn) as int])
}

/// One Cooley–Tukey stage on blocks of length `2h`: each pair `(x[b + p], x[b + p + h])`
/// becomes `(x[b + p] + x[b + p + h] * t[p], x[b + p] - x[b + p + h] * t[p])`.
pub open spec fn fwd_stage<R: Ring>(x: Seq<R>, h: nat, t: Seq<R>) -> Seq<R> {
    Seq::new(
        x.len(),
        |k: int|
            {
                let p = k % (2 * h as int);
                let b = k - p;
                if p < h {
                    R::add_spec(x[b + p], R::mul_spec(x[b + p + h], t[p]))
                } else {
                    R::sub_spec(x[b + p - h], R::mul_spec(x[b + p], t[p - h]))
                }
            },
    )
}

/// `v * s` when a scale is given, else `v`.
pub open spec fn scaled<R: Ring>(v: R, s: Option<R>) -> R {
    match s {
        Some(c) => R::mul_spec(v, c),
        None => v,
    }
}

/// One Gentleman–Sande stage on blocks of length `2h`: each pair `(a, b)` becomes
/// `(a + b, (a - b) * t[p])`, optionally scaled.
pub open spec fn inv_stage<R: Ring>(x: Seq<R>, h: nat, t: Seq<R>, s: Option<R>) -> Seq<R> {
    Seq::new(
        x.len(),
        |k: int|
            {
                let p = k % (2 * h as int);
                let b = k - p;
                if p < h {
                    scaled(R::add_spec(x[b + p], x[b + p + h]), s)
                } else {
                    scaled(R::mul_spec(R::sub_spec(x[b + p - h], x[b + p]), t[p - h]), s)
                }
            },
    )
}

/// The twiddle factors `1, w, w^2, ..., w^(half - 1)`.
pub open spec fn powers_seq<R: Ring>(w: R, half: nat) -> Seq<R> {
    Seq::new(half, |i: int| pow_spec(w, i as nat))
}

/// The forward stages `0..s` applied to the bit-reversed input.
pub open spec fn fwd_upto<R: Ring>(x: Seq<R>, tw: Seq<Seq<R>>, logn: nat, s: nat) -> Seq<R>
    decreases s,
{
    if s == 0 {
        bitrev_seq(x, logn)
    } else {
        fwd_stage(fwd_upto(x, tw, logn, (s - 1) as nat), pow2((s - 1) as nat), tw[s - 1])
    }
}

/// The inverse stages `0..t` (of half-lengths `n/2, n/4, ...`), the last of all
/// `logn` stages scaled by `scale`.
pub open spec fn inv_upto<R: Ring>(x: Seq<R>, tw: Seq<Seq<R>>, logn: nat, scale: R, t: nat) -> Seq<R>
    decreases t,
{
    if t == 0 {
        x
    } else {
        inv_stage(
            inv_upto(x, tw, logn, scale, (t - 1) as nat),
            pow2((logn - t) as nat),
            tw[t - 1],
            if t == logn {
                Some(scale)
            } else {
                None
            },
        )
    }
}


/// The `logn`-bit reversal of `i`.
fn reverse_bits(i: usize, logn: usize) -> (r: usize)
    requires
        logn < 64,
        i < pow2(logn as nat),
        pow2(logn as nat) <= usize::MAX,
    ensures
        r == rev(i as nat, logn as nat),
{
    let mut r: usize = 0;
    let mut x: usize = i;
    let mut t: usize = 0;
    proof {
        vstd::arithmetic::power2::lemma2_to64();
        vstd::bits::lemma_u64_pow2_no_overflow(logn as nat);
    }
    while t < logn
        invariant
            t <= logn < 64,
            i < pow2(logn as nat),
            pow2(logn as nat) <= usize::MAX,
            r < pow2(t as nat),
            r * pow2((logn - t) as nat) + rev(x as nat, (logn - t) as nat) == rev(i as nat, logn as nat),
        decreases logn - t,
    {
        let ghost m = (logn - t) as nat;
        proof {
            lemma_pow2_adds(1, (m - 1) as nat);
            lemma_pow2_adds(1, t as nat);
            if t + 1 < logn {
                vstd::arithmetic::power2::lemma_pow2_strictly_increases((t + 1) as nat, logn as nat);
            }
            vstd::arithmetic::power2::lemma2_to64();
            assert(pow2((t + 1) as nat) == 2 * pow2(t as nat));
            assert(pow2((t + 1) as nat) <= pow2(logn as nat));
            assert(1 + (m - 1) as nat == m);
            let h = pow2((m - 1) as nat);
            assert(r * (2 * h) + (x as nat % 2) * h + rev(x as nat / 2, (m - 1) as nat) == (2 * r + x
                % 2) * h + rev(x as nat / 2, (m - 1) as nat)) by (nonlinear_arith);
            assert(2 * r + x % 2 < 2 * pow2(t as nat)) by (nonlinear_arith)
                requires
                    r < pow2(t as nat),
                    x % 2 <= 1,
            ;
        }
        r = 2 * r + x % 2;
        x = x / 2;
        t = t + 1;
    }
    proof {
        vstd::arithmetic::power2::lemma2_to64();
        assert(r * 1 == r);
    }
    r
}

/// Permute `values` into bit-reversed order: entry `k` takes the old entry `rev(k)`.
pub fn bit_reverse_permute<R: Copy>(values: &mut [R])
    requires
        is_pow2(old(values)@.len()),
    ensures
        final(values)@ == bitrev_seq(old(values)@, log2(old(values)@.len())),
{
    let n = values.len();
    let ghost logn = log2(n as nat);
    let ghost orig = values@;
    proof {
        lemma_pow2_log2(n as nat);
        lemma_log2_small(n as nat);
    }
    let logn_exec = log2_exec(n);
    let mut i: usize = 0;
    while i < n
        invariant
            n == values@.len(),
            n == orig.len(),
            pow2(logn) == n,
            logn == logn_exec,
            logn < 64,
            i <= n,
            forall|k: int|
                0 <= k < n ==> #[trigger] values@[k] == (if k < i || rev(k as nat, logn) < i {
                    orig[rev(k as nat, logn) as int]
                } else {
                    orig[k]
                }),
        decreases n - i,
    {
        let j = reverse_bits(i, logn_exec);
        proof {
            lemma_rev_bound(i as nat, logn);
            lemma_rev_involution(i as nat, logn);
            assert forall|k: int| 0 <= k < n implies #[trigger] rev(k as nat, logn) < n by {
                lemma_rev_bound(k as nat, logn);
            }
        }
        if i < j {
            let a = values[i];
            let b = values[j];
            values[i] = b;
            values[j] = a;
            proof {
                assert forall|k: int| 0 <= k < n implies #[trigger] values@[k] == (if k < i + 1 || rev(
                    k as nat,
                    logn,
                ) < i + 1 {
                    orig[rev(k as nat, logn) as int]
                } else {
                    orig[k]
                }) by {
                    lemma_rev_bound(k as nat, logn);
                    lemma_rev_involution(k as nat, logn);
                }
            }
        } else {
            proof {
                assert forall|k: int| 0 <= k < n implies #[trigger] values@[k] == (if k < i + 1 || rev(
                    k as nat,
                    logn,
                ) < i + 1 {
                    orig[rev(k as nat, logn) as int]
                } else {
                    orig[k]
                }) by {
                    lemma_rev_bound(k as nat, logn);
                    lemma_rev_involution(k as nat, logn);
                }
            }
        }
        i = i + 1;
    }
    proof {
        assert(values@ =~= bitrev_seq(orig, logn));
    }
}

/// `log2(n)` for a power of two below `2^63`.
pub(crate) fn log2_exec(n: usize) -> (r: usize)
    requires
        is_pow2(n as nat),
    ensures
        r == log2(n as nat),
{
    let mut m = n;
    let mut r: usize = 0;
    proof {
        lemma_log2_small(n as nat);
    }
    while m > 1
        invariant
            log2(n as nat) < 64,
            is_pow2(m as nat),
            r + log2(m as nat) == log2(n as nat),
            r <= 64,
            m <= n,
            n < 0x1_0000_0000_0000_0000,
        decreases m,
    {
        proof {
            lemma_log2_small(m as nat);
        }
        m = m / 2;
        r = r + 1;
    }
    r
}

/// Powers of two below `2^64` have logarithm below `64`.
proof fn lemma_log2_small(n: nat)
    requires
        is_pow2(n),
        n < 0x1_0000_0000_0000_0000,
    ensures
        log2(n) < 64,
{
    lemma_pow2_log2(n);
    if log2(n) >= 64 {
        vstd::arithmetic::power2::lemma2_to64_rest();
        if log2(n) > 64 {
            vstd::arithmetic::power2::lemma_pow2_strictly_increases(64, log2(n));
        }
    }
}

/// The twiddle factors `1, step, step^2, ..., step^(half - 1)`.
fn stage_twiddles<R: Ring>(step: &R, half: usize) -> (r: Vec<R>)
    requires
        step.wf(),
    ensures
        r@ == powers_seq(*step, half as nat),
        seq_wf(r@),
{
    let mut twiddles: Vec<R> = Vec::new();
    proof {
        R::lemma_wf_params(*step);
    }
    let mut current = R::one();
    let mut i: usize = 0;
    while i < half
        invariant
            step.wf(),
            R::params_ok(),
            i <= half,
            twiddles@.len() == i,
            current == pow_spec(*step, i as nat),
            current.wf(),
            forall|k: int| 0 <= k < i ==> #[trigger] twiddles@[k] == pow_spec(*step, k as nat),
            seq_wf(twiddles@),
        decreases half - i,
    {
        twiddles.push(current);
        current = R::mul_ref(&current, step);
        i = i + 1;
    }
    proof {
        assert(twiddles@ =~= powers_seq(*step, half as nat));
    }
    twiddles
}


/// Entry `k` after the Cooley–Tukey butterflies of the block `[start, start + 2h)`.
pub open spec fn fwd_chunk<R: Ring>(x: Seq<R>, start: int, h: int, t: Seq<R>, k: int) -> R {
    if start <= k < start + h {
        R::add_spec(x[k], R::mul_spec(x[k + h], t[k - start]))
    } else if start + h <= k < start + 2 * h {
        R::sub_spec(x[k - h], R::mul_spec(x[k], t[k - start - h]))
    } else {
        x[k]
    }
}

/// Entry `k` after the Gentleman–Sande butterflies of the block `[start, start + 2h)`,
/// before scaling.
pub open spec fn inv_bfly<R: Ring>(x: Seq<R>, start: int, h: int, t: Seq<R>, k: int) -> R {
    if start <= k < start + h {
        R::add_spec(x[k], x[k + h])
    } else {
        R::mul_spec(R::sub_spec(x[k - h], x[k]), t[k - start - h])
    }
}

/// Entry `k` after the (optionally scaled) Gentleman–Sande butterflies of a block.
pub open spec fn inv_chunk<R: Ring>(x: Seq<R>, start: int, h: int, t: Seq<R>, s: Option<R>, k: int) -> R {
    if start <= k < start + 2 * h {
        scaled(inv_bfly(x, start, h, t, k), s)
    } else {
        x[k]
    }
}

/// Cooley–Tukey butterflies on the block `values[start .. start + 2 * half]`, pairing
/// entry `start + i` with `start + half + i` under the twiddle `twiddles[i]`.
fn apply_forward_chunk<R: Ring>(values: &mut [R], start: usize, half: usize, twiddles: &[R])
    requires
        start + 2 * half <= old(values)@.len(),
        twiddles@.len() == half,
        seq_wf(old(values)@),
        seq_wf(twiddles@),
        half > 0 ==> twiddles@[0] == R::one_spec(),
    ensures
        final(values)@.len() == old(values)@.len(),
        seq_wf(final(values)@),
        forall|k: int|
            0 <= k < old(values)@.len() ==> #[trigger] final(values)@[k] == fwd_chunk(
                old(values)@,
                start as int,
                half as int,
                twiddles@,
                k,
            ),
{
    let ghost x = values@;
    let n = values.len();
    if half == 0 {
        return;
    }
    let mut i: usize = 0;
    if half > 8 {
        let u0 = values[start];
        let o0 = values[start + half];
        proof {
            R::lemma_wf_params(u0);
            R::lemma_identities_wf();
            R::lemma_mul_laws(o0, R::one_spec(), R::one_spec());
        }
        values[start] = R::add_ref(&u0, &o0);
        values[start + half] = R::sub_ref(&u0, &o0);
        i = 1;
    }
    while i < half
        invariant
            n == values@.len(),
            n == x.len(),
            start + 2 * half <= n,
            twiddles@.len() == half,
            seq_wf(x),
            seq_wf(twiddles@),
            seq_wf(values@),
            i <= half,
            forall|k: int|
                0 <= k < n ==> #[trigger] values@[k] == (if (start <= k < start + i) || (start
                    + half <= k < start + half + i) {
                    fwd_chunk(x, start as int, half as int, twiddles@, k)
                } else {
                    x[k]
                }),
        decreases half - i,
    {
        let e = values[start + i];
        let o = values[start + half + i];
        let v = R::mul_ref(&o, &twiddles[i]);
        values[start + half + i] = R::sub_ref(&e, &v);
        values[start + i] = R::add_ref(&e, &v);
        i = i + 1;
    }
}

/// Gentleman–Sande butterflies on the block `chunk = values[start .. start + 2 * half]`,
/// each result multiplied by `inverse_scale` when one is given.
fn apply_inverse_chunk<R: Ring>(
    values: &mut [R],
    start: usize,
    half: usize,
    twiddles: &[R],
    inverse_scale: Option<R>,
)
    requires
        start + 2 * half <= old(values)@.len(),
        twiddles@.len() == half,
        seq_wf(old(values)@),
        seq_wf(twiddles@),
        half > 0 ==> twiddles@[0] == R::one_spec(),
        inverse_scale matches Some(c) ==> c.wf(),
    ensures
        final(values)@.len() == old(values)@.len(),
        seq_wf(final(values)@),
        forall|k: int|
            0 <= k < old(values)@.len() ==> #[trigger] final(values)@[k] == inv_chunk(
                old(values)@,
                start as int,
                half as int,
                twiddles@,
                inverse_scale,
                k,
            ),
{
    let ghost x = values@;
    let n = values.len();
    if half == 0 {
        return;
    }
    if half <= 8 {
        let mut i: usize = 0;
        while i < half
            invariant
                n == values@.len(),
                n == x.len(),
                start + 2 * half <= n,
                twiddles@.len() == half,
                seq_wf(x),
                seq_wf(twiddles@),
                seq_wf(values@),
                inverse_scale matches Some(c) ==> c.wf(),
                i <= half,
                forall|k: int|
                    0 <= k < n ==> #[trigger] values@[k] == (if (start <= k < start + i) || (start
                        + half <= k < start + half + i) {
                        inv_chunk(x, start as int, half as int, twiddles@, inverse_scale, k)
                    } else {
                        x[k]
                    }),
            decreases half - i,
        {
            let e = values[start + i];
            let o = values[start + half + i];
            let diff = R::sub_ref(&e, &o);
            let even_value = R::add_ref(&e, &o);
            let odd_value = R::mul_ref(&diff, &twiddles[i]);
            match inverse_scale {
                Some(scale) => {
                    values[start + i] = R::mul_ref(&even_value, &scale);
                    values[start + half + i] = R::mul_ref(&odd_value, &scale);
                },
                None => {
                    values[start + i] = even_value;
                    values[start + half + i] = odd_value;
                },
            }
            i = i + 1;
        }
        return;
    }
    let u0 = values[start];
    let o0 = values[start + half];
    proof {
        R::lemma_wf_params(u0);
        R::lemma_identities_wf();
        R::lemma_closed(u0, o0);
        R::lemma_mul_laws(R::sub_spec(u0, o0), R::one_spec(), R::one_spec());
    }
    values[start] = R::add_ref(&u0, &o0);
    values[start + half] = R::sub_ref(&u0, &o0);
    let mut i: usize = 1;
    while i < half
        invariant
            n == values@.len(),
            n == x.len(),
            start + 2 * half <= n,
            twiddles@.len() == half,
            seq_wf(x),
            seq_wf(twiddles@),
            seq_wf(values@),
            1 <= i <= half,
            forall|k: int|
                0 <= k < n ==> #[trigger] values@[k] == (if (start <= k < start + i) || (start
                    + half <= k < start + half + i) {
                    inv_bfly(x, start as int, half as int, twiddles@, k)
                } else {
                    x[k]
                }),
        decreases half - i,
    {
        let e = values[start + i];
        let o = values[start + half + i];
        let diff = R::sub_ref(&e, &o);
        values[start + i] = R::add_ref(&e, &o);
        values[start + half + i] = R::mul_ref(&diff, &twiddles[i]);
        i = i + 1;
    }
    if let Some(scale) = inverse_scale {
        let ghost y = values@;
        let mut j: usize = start;
        while j < start + 2 * half
            invariant
                n == values@.len(),
                n == y.len(),
                start + 2 * half <= n,
                seq_wf(values@),
                scale.wf(),
                start <= j <= start + 2 * half,
                forall|k: int|
                    0 <= k < n ==> #[trigger] values@[k] == (if start <= k < j {
                        R::mul_spec(y[k], scale)
                    } else {
                        y[k]
                    }),
            decreases start + 2 * half - j,
        {
            let v = values[j];
            values[j] = R::mul_ref(&v, &scale);
            j = j + 1;
        }
    }
}


/// Inside a block of length `m` that starts at a multiple of `m`, the offset of `k`
/// is `k mod m`.
proof fn lemma_chunk_mod(start: int, m: int, k: int)
    requires
        m > 0,
        start >= 0,
        start % m == 0,
        start <= k < start + m,
    ensures
        k % m == k - start,
{
    vstd::arithmetic::div_mod::lemma_fundamental_div_mod(start, m);
    let q = start / m;
    assert(k == q * m + (k - start)) by (nonlinear_arith)
        requires
            start == m * q + start % m,
            start % m == 0,
    ;
    vstd::arithmetic::div_mod::lemma_fundamental_div_mod_converse(k, m, q, k - start);
}

/// Blocks of length `m` tile a length that `m` divides.
proof fn lemma_next_chunk(start: int, m: int, n: int)
    requires
        m > 0,
        start >= 0,
        start % m == 0,
        n % m == 0,
        start < n,
    ensures
        start + m <= n,
        (start + m) % m == 0,
{
    vstd::arithmetic::div_mod::lemma_fundamental_div_mod(start, m);
    vstd::arithmetic::div_mod::lemma_fundamental_div_mod(n, m);
    let a = start / m;
    let b = n / m;
    assert(a < b) by (nonlinear_arith)
        requires
            start == m * a,
            n == m * b,
            start < n,
            m > 0,
    ;
    assert(start + m <= n) by (nonlinear_arith)
        requires
            start == m * a,
            n == m * b,
            a + 1 <= b,
            m > 0,
    ;
    assert(start + m == (a + 1) * m) by (nonlinear_arith)
        requires
            start == m * a,
    ;
    vstd::arithmetic::div_mod::lemma_mod_multiples_basic(a + 1, m);
}

/// One Cooley–Tukey stage: butterflies on every block of length `2 * half`.
fn forward_stage<R: Ring>(values: &mut [R], half: usize, twiddles: &[R])
    requires
        half > 0,
        2 * half <= old(values)@.len(),
        (old(values)@.len() as int) % (2 * half as int) == 0,
        twiddles@.len() == half,
        seq_wf(old(values)@),
        seq_wf(twiddles@),
        twiddles@[0] == R::one_spec(),
    ensures
        final(values)@ == fwd_stage(old(values)@, half as nat, twiddles@),
        seq_wf(final(values)@),
{
    let ghost x = values@;
    let n = values.len();
    let len = 2 * half;
    let mut start: usize = 0;
    while start < n
        invariant
            n == values@.len(),
            n == x.len(),
            len == 2 * half,
            half > 0,
            len <= n,
            (n as int) % (len as int) == 0,
            twiddles@.len() == half,
            seq_wf(x),
            seq_wf(twiddles@),
            seq_wf(values@),
            twiddles@[0] == R::one_spec(),
            start <= n,
            (start as int) % (len as int) == 0,
            forall|k: int|
                0 <= k < n ==> #[trigger] values@[k] == (if k < start {
                    fwd_stage(x, half as nat, twiddles@)[k]
                } else {
                    x[k]
                }),
        decreases n - start,
    {
        proof {
            lemma_next_chunk(start as int, len as int, n as int);
        }
        let ghost cur = values@;
        apply_forward_chunk(values, start, half, twiddles);
        proof {
            assert forall|k: int| 0 <= k < n implies #[trigger] values@[k] == (if k < start + len {
                fwd_stage(x, half as nat, twiddles@)[k]
            } else {
                x[k]
            }) by {
                if start <= k < start + len {
                    lemma_chunk_mod(start as int, len as int, k);
                }
            }
        }
        start = start + len;
    }
    proof {
        assert(values@ =~= fwd_stage(x, half as nat, twiddles@));
    }
}

/// One Gentleman–Sande stage: butterflies on every block of length `2 * half`,
/// optionally scaled.
fn inverse_stage<R: Ring>(values: &mut [R], half: usize, twiddles: &[R], inverse_scale: Option<R>)
    requires
        half > 0,
        2 * half <= old(values)@.len(),
        (old(values)@.len() as int) % (2 * half as int) == 0,
        twiddles@.len() == half,
        seq_wf(old(values)@),
        seq_wf(twiddles@),
        twiddles@[0] == R::one_spec(),
        inverse_scale matches Some(c) ==> c.wf(),
    ensures
        final(values)@ == inv_stage(old(values)@, half as nat, twiddles@, inverse_scale),
        seq_wf(final(values)@),
{
    let ghost x = values@;
    let n = values.len();
    let len = 2 * half;
    let mut start: usize = 0;
    while start < n
        invariant
            n == values@.len(),
            n == x.len(),
            len == 2 * half,
            half > 0,
            len <= n,
            (n as int) % (len as int) == 0,
            twiddles@.len() == half,
            seq_wf(x),
            seq_wf(twiddles@),
            seq_wf(values@),
            twiddles@[0] == R::one_spec(),
            inverse_scale matches Some(c) ==> c.wf(),
            start <= n,
            (start as int) % (len as int) == 0,
            forall|k: int|
                0 <= k < n ==> #[trigger] values@[k] == (if k < start {
                    inv_stage(x, half as nat, twiddles@, inverse_scale)[k]
                } else {
                    x[k]
                }),
        decreases n - start,
    {
        proof {
            lemma_next_chunk(start as int, len as int, n as int);
        }
        apply_inverse_chunk(values, start, half, twiddles, inverse_scale);
        proof {
            assert forall|k: int| 0 <= k < n implies #[trigger] values@[k] == (if k < start + len {
                inv_stage(x, half as nat, twiddles@, inverse_scale)[k]
            } else {
                x[k]
            }) by {
                if start <= k < start + len {
                    lemma_chunk_mod(start as int, len as int, k);
                }
            }
        }
        start = start + len;
    }
    proof {
        assert(values@ =~= inv_stage(x, half as nat, twiddles@, inverse_scale));
    }
}


/// `1` doubled `k` times, i.e. the ring element `2^k`.
pub open spec fn two_pow_elem<R: Ring>(k: nat) -> R
    decreases k,
{
    if k == 0 {
        R::one_spec()
    } else {
        R::add_spec(two_pow_elem::<R>((k - 1) as nat), two_pow_elem::<R>((k - 1) as nat))
    }
}

/// The element `2^k`, by doubling.
pub(crate) fn two_pow_exec<R: Ring>(k: usize) -> (r: R)
    requires
        R::params_ok(),
    ensures
        r == two_pow_elem::<R>(k as nat),
        r.wf(),
{
    proof {
        R::lemma_identities_wf();
    }
    let mut x = R::one();
    let mut i: usize = 0;
    while i < k
        invariant
            R::params_ok(),
            i <= k,
            x == two_pow_elem::<R>(i as nat),
            x.wf(),
        decreases k - i,
    {
        proof {
            R::lemma_closed(x, x);
        }
        x = R::add_ref(&x, &x);
        i = i + 1;
    }
    x
}

/// `m * 2^s`, doubling while the result stays within `usize`.
pub open spec fn capped_doubling(s: nat, m: nat) -> nat
    decreases s,
{
    if s == 0 || m > usize::MAX / 2 {
        m
    } else {
        capped_doubling((s - 1) as nat, 2 * m)
    }
}

/// `2^s`, or the largest power of two in `usize` when `2^s` does not fit.
pub open spec fn capped_pow2(s: nat) -> nat {
    capped_doubling(s, 1)
}

/// Twice a power of two is a power of two.
proof fn lemma_double_is_pow2(m: nat)
    requires
        is_pow2(m),
    ensures
        is_pow2(2 * m),
{
    assert((2 * m) % 2 == 0 && (2 * m) / 2 == m) by (nonlinear_arith);
}

/// `2^s`, or the largest power of two in `usize` when `2^s` does not fit.
pub(crate) fn capped_two_pow(s: usize) -> (m: usize)
    ensures
        m == capped_pow2(s as nat),
        is_pow2(m as nat),
{
    let mut m: usize = 1;
    let mut i: usize = 0;
    while i < s && m <= usize::MAX / 2
        invariant
            i <= s,
            m >= 1,
            is_pow2(m as nat),
            capped_doubling((s - i) as nat, m as nat) == capped_pow2(s as nat),
        decreases s - i,
    {
        proof {
            lemma_double_is_pow2(m as nat);
        }
        m = m * 2;
        i = i + 1;
    }
    m
}

/// The candidate `n`-th root of unity `g^(max / n)` drawn from an element `g` of order
/// `max`: `1` for `n = 1`; otherwise present only when `n` is a power of two up to
/// `max` and the candidate `w` has `w^n = 1` and `w^(n/2) = -1`.
pub open spec fn two_adic_root_candidate<R: Ring>(g: R, max: nat, n: nat) -> Option<R> {
    if n == 1 {
        Some(R::one_spec())
    } else if n == 0 || !is_pow2(n) || n > max {
        None
    } else {
        let w = pow_spec(g, max / n);
        if pow_spec(w, n) == R::one_spec() && pow_spec(w, n / 2) == R::neg_spec(R::one_spec()) {
            Some(w)
        } else {
            None
        }
    }
}

/// Computes [`two_adic_root_candidate`], checking the candidate's order.
pub(crate) fn two_adic_root<R: Ring>(g: &R, max: usize, n: usize) -> (r: Option<R>)
    requires
        R::params_ok(),
        g.wf(),
        R::neg_spec(R::one_spec()) != R::one_spec(),
    ensures
        r == two_adic_root_candidate(*g, max as nat, n as nat),
        r matches Some(w) ==> is_primitive_root(w, n as nat),
        r matches Some(w) ==> (is_pow2(n as nat) && n > 1 ==> pow_spec(w, (n / 2) as nat) == R::neg_spec(
            R::one_spec(),
        )),
{
    proof {
        R::lemma_identities_wf();
    }
    if n == 1 {
        let one = R::one();
        proof {
            R::lemma_mul_laws(one, one, one);
            assert(pow_spec(one, 0) == R::one_spec());
            assert(pow_spec(one, 1) == R::mul_spec(pow_spec(one, 0), one));
        }
        return Some(one);
    }
    if n == 0 || n > max {
        return None;
    }
    match validate_power_of_two_len(n) {
        Err(_) => return None,
        Ok(_) => {},
    }
    let w = ring_pow(g, (max / n) as u64);
    let full = ring_pow(&w, n as u64);
    if !full.is_one() {
        return None;
    }
    let h = ring_pow(&w, (n / 2) as u64);
    let one = R::one();
    proof {
        R::lemma_closed(one, one);
        if h == R::neg_spec(one) {
            R::lemma_add_laws(one, one, one);
            R::lemma_add_laws(h, one, one);
        }
    }
    if !R::add_ref(&h, &one).is_zero() {
        return None;
    }
    proof {
        R::lemma_add_laws(h, one, one);
        lemma_neg_unique(one, h);
    }
    Some(w)
}

/// The inverse `w^(n-1)` of an element with `w^n = 1`.
pub(crate) fn root_inverse<R: Ring>(w: &R, n: usize) -> (r: R)
    requires
        w.wf(),
        n >= 1,
        pow_spec(*w, n as nat) == R::one_spec(),
    ensures
        r.wf(),
        R::mul_spec(*w, r) == R::one_spec(),
{
    let r = ring_pow(w, (n - 1) as u64);
    proof {
        R::lemma_wf_params(*w);
        R::lemma_identities_wf();
        crate::arith::ring::lemma_pow_adds(*w, 1, (n - 1) as nat);
        assert(1 + (n - 1) as nat == n as nat);
        R::lemma_mul_laws(*w, R::one_spec(), R::one_spec());
        assert(pow_spec(*w, 0) == R::one_spec());
        assert(pow_spec(*w, 1) == R::mul_spec(pow_spec(*w, 0), *w));
    }
    r
}

/// In a large-modulus ring the element `2^k` has canonical value `2^k mod q`.
pub(crate) proof fn lemma_large_two_pow_value<R: LargeCanonicalRing>(k: nat)
    requires
        R::params_ok(),
    ensures
        two_pow_elem::<R>(k).wf(),
        two_pow_elem::<R>(k).canonical_value() == pow2(k) % R::canonical_modulus(),
    decreases k,
{
    R::lemma_identities_wf();
    R::lemma_canonical_identities();
    vstd::arithmetic::power2::lemma2_to64();
    let q = R::canonical_modulus();
    if k == 0 {
        vstd::arithmetic::div_mod::lemma_small_mod(1, q);
    } else {
        let k1 = (k - 1) as nat;
        lemma_large_two_pow_value::<R>(k1);
        let a = two_pow_elem::<R>(k1);
        R::lemma_closed(a, a);
        R::lemma_canonical(a, a);
        lemma_pow2_adds(1, k1);
        assert(1 + k1 == k);
        vstd::arithmetic::div_mod::lemma_add_mod_noop(pow2(k1) as int, pow2(k1) as int, q as int);
    }
}

/// In an integer ring the element `2^k` has value `2^k mod q`.
pub(crate) proof fn lemma_two_pow_value<R: IntegerRing>(k: nat)
    requires
        R::params_ok(),
    ensures
        two_pow_elem::<R>(k).wf(),
        two_pow_elem::<R>(k).value() == pow2(k) % R::modulus_spec(),
    decreases k,
{
    R::lemma_identities_wf();
    R::lemma_identity_values();
    vstd::arithmetic::power2::lemma2_to64();
    if k == 0 {
        vstd::arithmetic::div_mod::lemma_small_mod(1, R::modulus_spec());
    } else {
        let k1 = (k - 1) as nat;
        lemma_two_pow_value::<R>(k1);
        let a = two_pow_elem::<R>(k1);
        R::lemma_closed(a, a);
        R::lemma_value(a, a);
        lemma_pow2_adds(1, k1);
        assert(1 + k1 == k);
        vstd::arithmetic::div_mod::lemma_add_mod_noop(
            pow2(k1) as int,
            pow2(k1) as int,
            R::modulus_spec() as int,
        );
    }
}

/// `w` is a primitive `n`-th root of unity for a power of two `n`: `w^n = 1`, and
/// `w^(n/2) != 1` when `n > 1`.
pub open spec fn is_primitive_root<R: Ring>(w: R, n: nat) -> bool {
    &&& w.wf()
    &&& pow_spec(w, n) == R::one_spec()
    &&& n > 1 ==> pow_spec(w, n / 2) != R::one_spec()
}

/// Reusable stage data for an NTT of a fixed size over a fixed coefficient ring.
pub struct NttPlan<R: Ring> {
    len: usize,
    forward_stage_twiddles: Vec<Vec<R>>,
    inverse_stage_twiddles: Vec<Vec<R>>,
    inverse_scale: R,
    root: Ghost<R>,
    inv_root: Ghost<R>,
}

impl<R: Ring> NttPlan<R> {
    /// The transform length.
    pub closed spec fn plan_len(&self) -> nat {
        self.len as nat
    }

    /// The twiddle factors of the forward stages, stage `s` working on blocks of
    /// length `2^(s+1)`.
    pub closed spec fn forward_twiddles(&self) -> Seq<Seq<R>> {
        Seq::new(self.forward_stage_twiddles@.len(), |s: int| self.forward_stage_twiddles@[s]@)
    }

    /// The twiddle factors of the inverse stages, stage `t` working on blocks of
    /// length `len / 2^t`.
    pub closed spec fn inverse_twiddles(&self) -> Seq<Seq<R>> {
        Seq::new(self.inverse_stage_twiddles@.len(), |t: int| self.inverse_stage_twiddles@[t]@)
    }

    /// The factor `n^{-1}` applied in the last inverse stage.
    pub closed spec fn scale(&self) -> R {
        self.inverse_scale
    }

    /// The `n`-th root of unity the forward stages are built from.
    pub closed spec fn root(&self) -> R {
        self.root@
    }

    /// The inverse of [`Self::root`], which the inverse stages are built from.
    pub closed spec fn inv_root(&self) -> R {
        self.inv_root@
    }

    /// The plan's stages are the radix-2 stages for `root`, `inv_root` and `scale`;
    /// `root * inv_root = 1`, `scale * n = 1`, `root^n = 1` and `root^(n/2) = -1`.
    pub closed spec fn wf(&self) -> bool {
        let n = self.len as nat;
        let l = log2(n);
        &&& R::params_ok()
        &&& is_pow2(n)
        &&& self.forward_stage_twiddles@.len() == l
        &&& self.inverse_stage_twiddles@.len() == l
        &&& self.root@.wf()
        &&& self.inv_root@.wf()
        &&& self.inverse_scale.wf()
        &&& forall|s: int|
            0 <= s < l ==> #[trigger] self.forward_stage_twiddles@[s]@ == powers_seq(
                pow_spec(self.root@, n / pow2((s + 1) as nat)),
                pow2(s as nat),
            )
        &&& forall|t: int|
            0 <= t < l ==> #[trigger] self.inverse_stage_twiddles@[t]@ == powers_seq(
                pow_spec(self.inv_root@, pow2(t as nat)),
                n / pow2((t + 1) as nat),
            )
        &&& R::mul_spec(self.root@, self.inv_root@) == R::one_spec()
        &&& R::mul_spec(self.inverse_scale, two_pow_elem::<R>(l)) == R::one_spec()
        &&& pow_spec(self.root@, n) == R::one_spec()
        &&& n > 1 ==> pow_spec(self.root@, n / 2) == R::neg_spec(R::one_spec())
    }

    /// The forward transform of `x` under this plan: bit-reversal, then the
    /// Cooley–Tukey stages.
    pub open spec fn forward_spec(&self, x: Seq<R>) -> Seq<R> {
        fwd_upto(x, self.forward_twiddles(), log2(self.plan_len()), log2(self.plan_len()))
    }

    /// The inverse transform of `y` under this plan: the Gentleman–Sande stages with
    /// the last one scaled, then bit-reversal.
    pub open spec fn inverse_spec(&self, y: Seq<R>) -> Seq<R> {
        let l = log2(self.plan_len());
        bitrev_seq(inv_upto(y, self.inverse_twiddles(), l, self.scale(), l), l)
    }

    /// Returns the transform length this plan was built for.
    pub fn len(&self) -> (r: usize)
        ensures
            r == self.plan_len(),
    {
        self.len
    }

    /// Returns `true` when this plan was built for an empty transform.
    pub fn is_empty(&self) -> (b: bool)
        ensures
            b == (self.plan_len() == 0),
    {
        self.len == 0
    }

    /// `Ok` exactly when `len` is the plan's length.
    pub fn validate_len(&self, len: usize) -> (r: Result<(), NttError>)
        ensures
            r == (if self.plan_len() == len {
                Ok(())
            } else {
                Err(NttError::LengthMismatch { left: self.plan_len() as usize, right: len })
            }),
    {
        if self.len != len {
            return Err(NttError::LengthMismatch { left: self.len, right: len });
        }
        Ok(())
    }
}

/// `Ok` exactly when `len` is a power of two.
pub fn validate_power_of_two_len(len: usize) -> (r: Result<(), NttError>)
    ensures
        r == (if is_pow2(len as nat) {
            Ok(())
        } else {
            Err(NttError::LengthNotPowerOfTwo { len })
        }),
{
    if len == 0 {
        return Err(NttError::LengthNotPowerOfTwo { len });
    }
    let mut m = len;
    while m > 1
        invariant
            m >= 1,
            is_pow2(m as nat) == is_pow2(len as nat),
        decreases m,
    {
        if m % 2 != 0 {
            return Err(NttError::LengthNotPowerOfTwo { len });
        }
        m = m / 2;
    }
    Ok(())
}


/// For `a <= b`, `2^a` divides `2^b` with quotient `2^(b - a)`.
proof fn lemma_pow2_div(a: nat, b: nat)
    requires
        a <= b,
    ensures
        pow2(a) > 0,
        pow2(a) <= pow2(b),
        pow2(b) / pow2(a) == pow2((b - a) as nat),
        pow2(b) % pow2(a) == 0,
{
    lemma_pow2_pos(a);
    lemma_pow2_pos((b - a) as nat);
    vstd::arithmetic::power2::lemma_pow2_subtracts(a, b);
    lemma_pow2_adds(a, (b - a) as nat);
    assert(a + (b - a) as nat == b);
    let x = pow2((b - a) as nat);
    let m = pow2(a);
    assert(pow2(b) == x * m) by (nonlinear_arith)
        requires
            pow2(b) == m * x,
    ;
    vstd::arithmetic::div_mod::lemma_mod_multiples_basic(x as int, m as int);
    assert(m <= x * m) by (nonlinear_arith)
        requires
            x > 0,
            m > 0,
    ;
}

/// The twiddle factors `powers_seq(w, half)` are valid and start with `1`.
proof fn lemma_powers_seq_wf<R: Ring>(w: R, half: nat)
    requires
        w.wf(),
    ensures
        seq_wf(powers_seq(w, half)),
        half > 0 ==> powers_seq(w, half)[0] == R::one_spec(),
{
    assert forall|i: int| 0 <= i < half implies (#[trigger] powers_seq(w, half)[i]).wf() by {
        crate::arith::ring::lemma_pow_wf(w, i as nat);
    }
}

/// A ring whose modulus supports the Number Theoretic Transform.
///
/// This requires the modulus `q` to have primitive roots of unity of sufficient order
/// (typically `q ≡ 1 (mod 2n)` for NTT of size `n`).
pub trait NTTRing: Ring {
    /// The primitive `n`-th root of unity the ring uses for transforms of length `n`,
    /// if it has one.
    spec fn root_spec(n: nat) -> Option<Self>;

    /// Returns a primitive `n`-th root of unity in `Z_q`, if one exists.
    ///
    /// Returns `None` if the modulus does not support NTT of the given size.
    fn root_of_unity(n: usize) -> (r: Option<Self>)
        requires
            Self::params_ok(),
        ensures
            r == Self::root_spec(n as nat),
            r matches Some(w) ==> is_primitive_root(w, n as nat),
            r matches Some(w) ==> (is_pow2(n as nat) && n > 1 ==> pow_spec(w, (n / 2) as nat)
                == Self::neg_spec(Self::one_spec())),
    ;

    /// Returns the inverse of the primitive `n`-th root of unity.
    fn inv_root_of_unity(n: usize) -> (r: Option<Self>)
        requires
            Self::params_ok(),
        ensures
            r is Some <==> Self::root_spec(n as nat) is Some,
            r matches Some(w) ==> w.wf(),
            r matches Some(v) ==> Self::root_spec(n as nat) matches Some(w) && Self::mul_spec(w, v)
                == Self::one_spec(),
    ;

    /// Returns `n^(-1)` in the coefficient ring when it exists; it exists for every
    /// power-of-two length that has a root of unity.
    fn inverse_ntt_scale(n: usize) -> (r: Option<Self>)
        requires
            Self::params_ok(),
        ensures
            r matches Some(w) ==> w.wf(),
            is_pow2(n as nat) && Self::root_spec(n as nat) is Some ==> (r matches Some(c)
                && Self::mul_spec(c, two_pow_elem::<Self>(log2(n as nat))) == Self::one_spec()),
    ;

    /// Returns `true` if this ring supports NTT of the given size.
    fn supports_ntt(n: usize) -> (b: bool)
        requires
            Self::params_ok(),
        ensures
            b == Self::root_spec(n as nat) is Some,
            b ==> exists|w: Self| is_primitive_root(w, n as nat),
    {
        match Self::root_of_unity(n) {
            Some(_) => true,
            None => false,
        }
    }

    /// Maximum supported NTT size for this modulus.
    fn max_ntt_size() -> (m: usize)
        requires
            Self::params_ok(),
        ensures
            is_pow2(m as nat),
    ;

    /// Perform the forward NTT in-place.
    fn ntt_forward_in_place(coeffs: &mut [Self]) -> (r: Result<(), NttError>)
        requires
            Self::params_ok(),
            seq_wf(old(coeffs)@),
        ensures
            forward_outcome(old(coeffs)@, final(coeffs)@, r, Self::root_spec(old(coeffs)@.len())),
            r is Ok <==> is_pow2(old(coeffs)@.len()) && Self::root_spec(old(coeffs)@.len()) is Some,
            final(coeffs)@.len() == old(coeffs)@.len(),
            seq_wf(final(coeffs)@),
    ;

    /// Perform the forward NTT in-place using a precomputed plan.
    fn ntt_forward_with_plan(coeffs: &mut [Self], plan: &NttPlan<Self>) -> (r: Result<(), NttError>)
        requires
            plan.wf(),
            seq_wf(old(coeffs)@),
        ensures
            r == plan.validate_len_spec(old(coeffs)@.len()),
            r is Ok ==> final(coeffs)@ == plan.forward_spec(old(coeffs)@),
            r is Err ==> final(coeffs)@ == old(coeffs)@,
            final(coeffs)@.len() == old(coeffs)@.len(),
            seq_wf(final(coeffs)@),
    ;

    /// Perform the inverse NTT in-place.
    fn ntt_inverse_in_place(evals: &mut [Self]) -> (r: Result<(), NttError>)
        requires
            Self::params_ok(),
            seq_wf(old(evals)@),
        ensures
            inverse_outcome(old(evals)@, final(evals)@, r, Self::root_spec(old(evals)@.len())),
            r is Ok <==> is_pow2(old(evals)@.len()) && Self::root_spec(old(evals)@.len()) is Some,
            final(evals)@.len() == old(evals)@.len(),
            seq_wf(final(evals)@),
    ;

    /// Perform the inverse NTT in-place using a precomputed plan.
    fn ntt_inverse_with_plan(evals: &mut [Self], plan: &NttPlan<Self>) -> (r: Result<(), NttError>)
        requires
            plan.wf(),
            seq_wf(old(evals)@),
        ensures
            r == plan.validate_len_spec(old(evals)@.len()),
            r is Ok ==> final(evals)@ == plan.inverse_spec(old(evals)@),
            r is Err ==> final(evals)@ == old(evals)@,
            final(evals)@.len() == old(evals)@.len(),
            seq_wf(final(evals)@),
    ;
}

/// Everything a plan of length `len` needs: `len` a power of two, a root `w` with
/// `w^len = 1` and `w^(len/2) = -1`, its inverse, and the scale `len^{-1}`.
pub open spec fn roots_ok<R: Ring>(len: nat, root: Option<R>, inv_root: Option<R>, scale: Option<R>) -> bool {
    &&& is_pow2(len)
    &&& root is Some
    &&& inv_root is Some
    &&& scale is Some
    &&& R::mul_spec(root.unwrap(), inv_root.unwrap()) == R::one_spec()
    &&& R::mul_spec(scale.unwrap(), two_pow_elem::<R>(log2(len))) == R::one_spec()
    &&& pow_spec(root.unwrap(), len) == R::one_spec()
    &&& len > 1 ==> pow_spec(root.unwrap(), len / 2) == R::neg_spec(R::one_spec())
}

/// The error for a length that no plan can be built for: not a power of two, or a
/// size the ring does not support.
pub open spec fn plan_error(len: nat) -> NttError {
    if is_pow2(len) {
        NttError::UnsupportedSize { len: len as usize }
    } else {
        NttError::LengthNotPowerOfTwo { len: len as usize }
    }
}

/// The ring has a plan of length `len`: `len` is a power of two with a root of unity.
pub open spec fn ntt_supported<R: NTTRing>(len: nat) -> bool {
    is_pow2(len) && R::root_spec(len) is Some
}

/// A valid plan of length `len` built on `root` (the ring's root of unity for that
/// length).
pub open spec fn is_ring_plan<R: Ring>(p: NttPlan<R>, len: nat, root: Option<R>) -> bool {
    p.wf() && p.plan_len() == len && root == Some(p.root())
}

/// Outcome of a forward transform that builds its own plan: on success, the result
/// is the forward transform under the ring's plan of that length (all such plans
/// transform alike); on failure, the input is untouched and the error says why no
/// plan exists.
pub open spec fn forward_outcome<R: Ring>(x: Seq<R>, y: Seq<R>, r: Result<(), NttError>, root: Option<R>) -> bool {
    match r {
        Ok(_) => exists|p: NttPlan<R>|
            #![trigger p.forward_spec(x)]
            is_ring_plan(p, x.len(), root) && y == p.forward_spec(x),
        Err(e) => y == x && e == plan_error(x.len()),
    }
}

/// Outcome of an inverse transform that builds its own plan.
pub open spec fn inverse_outcome<R: Ring>(x: Seq<R>, y: Seq<R>, r: Result<(), NttError>, root: Option<R>) -> bool {
    match r {
        Ok(_) => exists|p: NttPlan<R>|
            #![trigger p.inverse_spec(x)]
            is_ring_plan(p, x.len(), root) && y == p.inverse_spec(x),
        Err(e) => y == x && e == plan_error(x.len()),
    }
}

impl<R: Ring> NttPlan<R> {
    /// `Ok` exactly when `len` is the plan's length.
    pub open spec fn validate_len_spec(&self, len: nat) -> Result<(), NttError> {
        if self.plan_len() == len {
            Ok(())
        } else {
            Err(NttError::LengthMismatch { left: self.plan_len() as usize, right: len as usize })
        }
    }
}

impl<R: NTTRing> NttPlan<R> {
    /// Builds the stage data of an NTT of length `len` from the ring's root of unity,
    /// inverse root and scale for that length.
    pub fn build(len: usize) -> (r: Result<Self, NttError>)
        requires
            R::params_ok(),
        ensures
            match r {
                Ok(p) => p.wf() && p.plan_len() == len && is_pow2(len as nat),
                Err(e) => e == plan_error(len as nat),
            },
            r is Ok <==> ntt_supported::<R>(len as nat),
            r matches Ok(p) ==> is_ring_plan(p, len as nat, R::root_spec(len as nat)),
    {
        let root = R::root_of_unity(len);
        let inv_root = R::inv_root_of_unity(len);
        let scale = R::inverse_ntt_scale(len);
        proof {
            if ntt_supported::<R>(len as nat) {
                let w = root.unwrap();
                assert(roots_ok(len as nat, root, inv_root, scale));
            }
        }
        Self::from_roots(len, root, inv_root, scale)
    }
}

impl<R: Ring> NttPlan<R> {
    /// Builds the stage data of an NTT of length `len`: the twiddles of every forward
    /// and inverse stage, from the `len`-th root of unity `root`, its inverse
    /// `inv_root`, and the scale `len^{-1}`.
    ///
    /// Fails when `len` is not a power of two, or when one of the three is missing, or
    /// when they do not invert each other, or when `root^len != 1` or
    /// `root^(len/2) != -1`.
    pub fn from_roots(len: usize, root: Option<R>, inv_root: Option<R>, inverse_scale: Option<R>) -> (r: Result<Self, NttError>)
        requires
            R::params_ok(),
            root matches Some(w) ==> w.wf(),
            inv_root matches Some(w) ==> w.wf(),
            inverse_scale matches Some(w) ==> w.wf(),
        ensures
            match r {
                Ok(p) => p.wf() && p.plan_len() == len && is_pow2(len as nat),
                Err(e) => e == plan_error(len as nat),
            },
            r is Ok <==> roots_ok(len as nat, root, inv_root, inverse_scale),
            r matches Ok(p) ==> p.root() == root.unwrap() && p.inv_root() == inv_root.unwrap()
                && p.scale() == inverse_scale.unwrap(),
    {
        match validate_power_of_two_len(len) {
            Err(e) => return Err(e),
            Ok(_) => {},
        }
        let root = match root {
            Some(w) => w,
            None => return Err(NttError::UnsupportedSize { len }),
        };
        let inv_root = match inv_root {
            Some(w) => w,
            None => return Err(NttError::UnsupportedSize { len }),
        };
        let ghost l = log2(len as nat);
        proof {
            lemma_pow2_log2(len as nat);
            lemma_log2_small(len as nat);
            vstd::arithmetic::power2::lemma2_to64();
        }
        let logn = log2_exec(len);

        let mut forward_stage_twiddles: Vec<Vec<R>> = Vec::new();
        let mut s: usize = 0;
        let mut half: usize = 1;
        while s < logn
            invariant
                R::params_ok(),
                root.wf(),
                logn == l,
                pow2(l) == len,
                s <= logn,
                half == pow2(s as nat),
                forward_stage_twiddles@.len() == s,
                forall|j: int|
                    0 <= j < s ==> #[trigger] forward_stage_twiddles@[j]@ == powers_seq(
                        pow_spec(root, len as nat / pow2((j + 1) as nat)),
                        pow2(j as nat),
                    ),
            decreases logn - s,
        {
            proof {
                lemma_pow2_div((s + 1) as nat, l);
                lemma_pow2_adds(1, s as nat);
                vstd::arithmetic::power2::lemma2_to64();
                assert(1 + s as nat == (s + 1) as nat);
            }
            let stage_len = 2 * half;
            let w_len = ring_pow(&root, (len / stage_len) as u64);
            forward_stage_twiddles.push(stage_twiddles(&w_len, half));
            s = s + 1;
            half = stage_len;
        }

        let mut inverse_stage_twiddles: Vec<Vec<R>> = Vec::new();
        let mut t: usize = 0;
        let mut stage_len: usize = len;
        while t < logn
            invariant
                R::params_ok(),
                inv_root.wf(),
                logn == l,
                pow2(l) == len,
                t <= logn,
                stage_len == pow2((l - t) as nat),
                inverse_stage_twiddles@.len() == t,
                forall|j: int|
                    0 <= j < t ==> #[trigger] inverse_stage_twiddles@[j]@ == powers_seq(
                        pow_spec(inv_root, pow2(j as nat)),
                        len as nat / pow2((j + 1) as nat),
                    ),
            decreases logn - t,
        {
            proof {
                lemma_pow2_div((l - t) as nat, l);
                lemma_pow2_div((t + 1) as nat, l);
                lemma_pow2_div(1, (l - t) as nat);
                vstd::arithmetic::power2::lemma2_to64();
                assert((l - (l - t) as nat) as nat == t as nat);
                assert(((l - t) as nat - 1) as nat == (l - (t + 1) as nat) as nat);
            }
            let half = stage_len / 2;
            let w_len = ring_pow(&inv_root, (len / stage_len) as u64);
            inverse_stage_twiddles.push(stage_twiddles(&w_len, half));
            t = t + 1;
            stage_len = half;
        }

        let inverse_scale = match inverse_scale {
            Some(c) => c,
            None => return Err(NttError::UnsupportedSize { len }),
        };
        if !R::mul_ref(&root, &inv_root).is_one() {
            return Err(NttError::UnsupportedSize { len });
        }
        let n_elem = two_pow_exec::<R>(logn);
        if !R::mul_ref(&inverse_scale, &n_elem).is_one() {
            return Err(NttError::UnsupportedSize { len });
        }
        if !ring_pow(&root, len as u64).is_one() {
            return Err(NttError::UnsupportedSize { len });
        }
        if len > 1 {
            let half_power = ring_pow(&root, (len / 2) as u64);
            let one = R::one();
            proof {
                R::lemma_identities_wf();
            }
            proof {
                R::lemma_closed(one, one);
                if half_power == R::neg_spec(one) {
                    R::lemma_add_laws(one, one, one);
                    R::lemma_add_laws(half_power, one, one);
                }
            }
            if !R::add_ref(&half_power, &one).is_zero() {
                return Err(NttError::UnsupportedSize { len });
            }
            proof {
                R::lemma_add_laws(half_power, one, one);
                lemma_neg_unique(one, half_power);
            }
        }
        Ok(NttPlan {
            len,
            forward_stage_twiddles,
            inverse_stage_twiddles,
            inverse_scale,
            root: Ghost(root),
            inv_root: Ghost(inv_root),
        })
    }
}


/// Forward NTT under `plan`: bit-reverse the input, then run the Cooley–Tukey stages.
pub fn scalar_ntt_forward_with_plan<R: Ring>(coeffs: &mut [R], plan: &NttPlan<R>) -> (r: Result<(), NttError>)
    requires
        plan.wf(),
        seq_wf(old(coeffs)@),
    ensures
        r == plan.validate_len_spec(old(coeffs)@.len()),
        r is Ok ==> final(coeffs)@ == plan.forward_spec(old(coeffs)@),
        r is Err ==> final(coeffs)@ == old(coeffs)@,
        final(coeffs)@.len() == old(coeffs)@.len(),
        seq_wf(final(coeffs)@),
{
    let n = coeffs.len();
    match plan.validate_len(n) {
        Err(e) => return Err(e),
        Ok(_) => {},
    }
    let ghost orig = coeffs@;
    let ghost l = log2(n as nat);
    let ghost tw = plan.forward_twiddles();
    proof {
        lemma_pow2_log2(n as nat);
        assert forall|k: int| 0 <= k < n implies (#[trigger] bitrev_seq(orig, l)[k]).wf() by {
            lemma_rev_bound(k as nat, l);
        }
    }
    bit_reverse_permute(coeffs);
    let stages = plan.forward_stage_twiddles.len();
    let mut s: usize = 0;
    let mut half: usize = 1;
    proof {
        vstd::arithmetic::power2::lemma2_to64();
    }
    while s < stages
        invariant
            plan.wf(),
            n == plan.plan_len(),
            n == coeffs@.len(),
            n == orig.len(),
            l == log2(n as nat),
            pow2(l) == n,
            stages == l,
            tw == plan.forward_twiddles(),
            s <= stages,
            half == pow2(s as nat),
            seq_wf(coeffs@),
            coeffs@ == fwd_upto(orig, tw, l, s as nat),
        decreases stages - s,
    {
        proof {
            lemma_pow2_div((s + 1) as nat, l);
            lemma_pow2_adds(1, s as nat);
            vstd::arithmetic::power2::lemma2_to64();
            assert(1 + s as nat == (s + 1) as nat);
            let w = pow_spec(plan.root(), n as nat / pow2((s + 1) as nat));
            crate::arith::ring::lemma_pow_wf(plan.root(), n as nat / pow2((s + 1) as nat));
            lemma_powers_seq_wf(w, pow2(s as nat));
            assert(tw[s as int] == plan.forward_stage_twiddles@[s as int]@);
        }
        forward_stage(coeffs, half, plan.forward_stage_twiddles[s].as_slice());
        s = s + 1;
        half = 2 * half;
    }
    Ok(())
}

/// Inverse NTT under `plan`: the Gentleman–Sande stages, the last one scaled by
/// `n^{-1}`, then bit-reversal.
pub fn scalar_ntt_inverse_with_plan<R: Ring>(evals: &mut [R], plan: &NttPlan<R>) -> (r: Result<(), NttError>)
    requires
        plan.wf(),
        seq_wf(old(evals)@),
    ensures
        r == plan.validate_len_spec(old(evals)@.len()),
        r is Ok ==> final(evals)@ == plan.inverse_spec(old(evals)@),
        r is Err ==> final(evals)@ == old(evals)@,
        final(evals)@.len() == old(evals)@.len(),
        seq_wf(final(evals)@),
{
    let n = evals.len();
    match plan.validate_len(n) {
        Err(e) => return Err(e),
        Ok(_) => {},
    }
    let ghost orig = evals@;
    let ghost l = log2(n as nat);
    let ghost tw = plan.inverse_twiddles();
    proof {
        lemma_pow2_log2(n as nat);
    }
    let stages = plan.inverse_stage_twiddles.len();
    let mut t: usize = 0;
    let mut len: usize = n;
    while t < stages
        invariant
            plan.wf(),
            n == plan.plan_len(),
            n == evals@.len(),
            n == orig.len(),
            l == log2(n as nat),
            pow2(l) == n,
            stages == l,
            tw == plan.inverse_twiddles(),
            t <= stages,
            len == pow2((l - t) as nat),
            seq_wf(evals@),
            evals@ == inv_upto(orig, tw, l, plan.scale(), t as nat),
        decreases stages - t,
    {
        proof {
            lemma_pow2_div(1, (l - t) as nat);
            lemma_pow2_div((t + 1) as nat, l);
            vstd::arithmetic::power2::lemma2_to64();
            assert(((l - t) as nat - 1) as nat == (l - (t + 1) as nat) as nat);
            let w = pow_spec(plan.inv_root(), pow2(t as nat));
            crate::arith::ring::lemma_pow_wf(plan.inv_root(), pow2(t as nat));
            lemma_powers_seq_wf(w, n as nat / pow2((t + 1) as nat));
            assert(tw[t as int] == plan.inverse_stage_twiddles@[t as int]@);
            lemma_pow2_div((l - (t + 1) as nat) as nat, l);
            lemma_pow2_div((l - t) as nat, l);
            if l - t > 1 {
                vstd::arithmetic::power2::lemma_pow2_strictly_increases(1, (l - t) as nat);
            }
            assert(len / 2 == pow2((l - (t + 1) as nat) as nat));
            assert(2 * (len / 2) == len);
            assert((len == 2) == (t + 1 == l));
        }
        let half = len / 2;
        let final_stage = len == 2;
        let scale = if final_stage {
            Some(plan.inverse_scale)
        } else {
            None
        };
        inverse_stage(evals, half, plan.inverse_stage_twiddles[t].as_slice(), scale);
        t = t + 1;
        len = half;
    }
    proof {
        assert forall|k: int| 0 <= k < n implies (#[trigger] bitrev_seq(evals@, l)[k]).wf() by {
            lemma_rev_bound(k as nat, l);
        }
    }
    bit_reverse_permute(evals);
    Ok(())
}


/// `0 + a = a`.
pub(crate) proof fn lemma_add_zero_left<R: Ring>(a: R)
    requires
        a.wf(),
    ensures
        R::add_spec(R::zero_spec(), a) == a,
{
    R::lemma_wf_params(a);
    R::lemma_identities_wf();
    R::lemma_add_laws(a, R::zero_spec(), a);
}

/// An additive inverse is unique: `a + x = 0` forces `x = -a`.
pub(crate) proof fn lemma_neg_unique<R: Ring>(a: R, x: R)
    requires
        a.wf(),
        x.wf(),
        R::add_spec(a, x) == R::zero_spec(),
    ensures
        x == R::neg_spec(a),
{
    R::lemma_wf_params(a);
    R::lemma_identities_wf();
    R::lemma_closed(a, x);
    let na = R::neg_spec(a);
    R::lemma_add_laws(x, a, na);
    R::lemma_add_laws(a, x, na);
    R::lemma_add_laws(x, R::zero_spec(), na);
    R::lemma_add_laws(a, na, x);
    lemma_add_zero_left(na);
}

/// `-(-a) = a`.
pub(crate) proof fn lemma_neg_neg<R: Ring>(a: R)
    requires
        a.wf(),
    ensures
        R::neg_spec(R::neg_spec(a)) == a,
{
    R::lemma_closed(a, a);
    let na = R::neg_spec(a);
    R::lemma_add_laws(a, na, na);
    R::lemma_add_laws(na, a, a);
    lemma_neg_unique(na, a);
}

/// `-(a + b) = -a + -b`.
proof fn lemma_neg_add<R: Ring>(a: R, b: R)
    requires
        a.wf(),
        b.wf(),
    ensures
        R::neg_spec(R::add_spec(a, b)) == R::add_spec(R::neg_spec(a), R::neg_spec(b)),
{
    R::lemma_wf_params(a);
    R::lemma_identities_wf();
    R::lemma_closed(a, b);
    R::lemma_closed(b, a);
    let na = R::neg_spec(a);
    let nb = R::neg_spec(b);
    R::lemma_closed(na, nb);
    R::lemma_closed(nb, na);
    R::lemma_closed(b, nb);
    R::lemma_closed(R::add_spec(b, nb), na);
    // (a + b) + (-a + -b) = a + (b + (-a + -b)) = a + (b + (-b + -a)) = a + ((b + -b) + -a)
    R::lemma_add_laws(a, b, R::add_spec(na, nb));
    R::lemma_add_laws(na, nb, na);
    R::lemma_add_laws(b, nb, na);
    R::lemma_add_laws(a, nb, na);
    lemma_add_zero_left(na);
    R::lemma_add_laws(a, na, na);
    lemma_neg_unique(R::add_spec(a, b), R::add_spec(na, nb));
}

/// The sum of the two outputs of a butterfly: `(a + u) + (a - u) = a + a`.
proof fn lemma_bfly_sum<R: Ring>(a: R, u: R)
    requires
        a.wf(),
        u.wf(),
    ensures
        R::add_spec(R::add_spec(a, u), R::sub_spec(a, u)) == R::add_spec(a, a),
{
    R::lemma_wf_params(a);
    R::lemma_identities_wf();
    R::lemma_closed(a, u);
    R::lemma_closed(u, a);
    let nu = R::neg_spec(u);
    R::lemma_closed(a, nu);
    R::lemma_closed(nu, a);
    R::lemma_add_laws(a, u, u);
    R::lemma_add_laws(a, u, R::add_spec(a, nu));
    R::lemma_add_laws(a, nu, a);
    R::lemma_add_laws(u, nu, a);
    R::lemma_add_laws(nu, a, a);
    lemma_add_zero_left(a);
}

/// The difference of the two outputs of a butterfly: `(a + u) - (a - u) = u + u`.
proof fn lemma_bfly_diff<R: Ring>(a: R, u: R)
    requires
        a.wf(),
        u.wf(),
    ensures
        R::sub_spec(R::add_spec(a, u), R::sub_spec(a, u)) == R::add_spec(u, u),
{
    R::lemma_wf_params(a);
    R::lemma_identities_wf();
    R::lemma_closed(a, u);
    R::lemma_closed(u, u);
    let na = R::neg_spec(a);
    let nu = R::neg_spec(u);
    R::lemma_closed(a, nu);
    R::lemma_closed(na, u);
    R::lemma_closed(u, na);
    R::lemma_closed(a, na);
    R::lemma_closed(R::add_spec(a, u), R::add_spec(a, nu));
    // (a + u) - (a - u) = (a + u) + -(a + -u) = (a + u) + (-a + u)
    R::lemma_add_laws(R::add_spec(a, u), R::add_spec(a, nu), a);
    R::lemma_add_laws(a, u, u);
    lemma_neg_add(a, nu);
    lemma_neg_neg(u);
    // (a + u) + (-a + u) = a + (u + (-a + u)) = a + ((-a + u) + u) = a + (-a + (u + u))
    R::lemma_add_laws(a, u, R::add_spec(na, u));
    R::lemma_add_laws(u, R::add_spec(na, u), u);
    R::lemma_add_laws(na, u, u);
    R::lemma_add_laws(a, na, R::add_spec(u, u));
    lemma_add_zero_left(R::add_spec(u, u));
}

/// `c * (-y) = -(c * y)`.
pub(crate) proof fn lemma_mul_neg<R: Ring>(c: R, y: R)
    requires
        c.wf(),
        y.wf(),
    ensures
        R::mul_spec(c, R::neg_spec(y)) == R::neg_spec(R::mul_spec(c, y)),
{
    R::lemma_wf_params(c);
    R::lemma_identities_wf();
    R::lemma_closed(y, y);
    R::lemma_closed(c, y);
    R::lemma_closed(c, R::neg_spec(y));
    R::lemma_add_laws(y, y, y);
    R::lemma_mul_laws(c, y, R::neg_spec(y));
    lemma_neg_unique(R::mul_spec(c, y), R::mul_spec(c, R::neg_spec(y)));
}

/// Scaling commutes with a forward butterfly output:
/// `a*c + (b*c)*t = (a + b*t)*c` and `a*c - (b*c)*t = (a - b*t)*c`.
proof fn lemma_fwd_linear<R: Ring>(a: R, b: R, t: R, c: R)
    requires
        a.wf(),
        b.wf(),
        t.wf(),
        c.wf(),
    ensures
        R::add_spec(R::mul_spec(a, c), R::mul_spec(R::mul_spec(b, c), t)) == R::mul_spec(
            R::add_spec(a, R::mul_spec(b, t)),
            c,
        ),
        R::sub_spec(R::mul_spec(a, c), R::mul_spec(R::mul_spec(b, c), t)) == R::mul_spec(
            R::sub_spec(a, R::mul_spec(b, t)),
            c,
        ),
{
    R::lemma_wf_params(a);
    R::lemma_identities_wf();
    let u = R::mul_spec(b, t);
    R::lemma_closed(b, t);
    R::lemma_closed(b, c);
    R::lemma_closed(a, c);
    R::lemma_closed(u, c);
    R::lemma_closed(a, u);
    R::lemma_closed(u, u);
    R::lemma_closed(c, u);
    // (b*c)*t = b*(c*t) = b*(t*c) = (b*t)*c
    R::lemma_mul_laws(b, c, t);
    R::lemma_mul_laws(c, t, t);
    R::lemma_mul_laws(b, t, c);
    // (a + u)*c = c*(a + u) = c*a + c*u
    R::lemma_mul_laws(R::add_spec(a, u), c, c);
    R::lemma_mul_laws(c, a, u);
    R::lemma_mul_laws(c, a, a);
    R::lemma_mul_laws(c, u, u);
    // (a - u)*c = c*(a + -u) = c*a + c*(-u) = c*a + -(c*u)
    let nu = R::neg_spec(u);
    R::lemma_closed(a, nu);
    R::lemma_add_laws(a, u, u);
    R::lemma_mul_laws(R::add_spec(a, nu), c, c);
    R::lemma_mul_laws(c, a, nu);
    lemma_mul_neg(c, u);
    R::lemma_closed(R::mul_spec(a, c), R::mul_spec(u, c));
    R::lemma_add_laws(R::mul_spec(a, c), R::mul_spec(u, c), c);
}

/// A forward butterfly followed by an inverse one with the inverse twiddle doubles
/// both inputs: with `t * t' = 1`, `(a + b t) + (a - b t) = 2a` and
/// `((a + b t) - (a - b t)) t' = 2b`.
proof fn lemma_bfly_pair<R: Ring>(a: R, b: R, t: R, ti: R)
    requires
        a.wf(),
        b.wf(),
        t.wf(),
        ti.wf(),
        R::mul_spec(t, ti) == R::one_spec(),
    ensures
        R::add_spec(R::add_spec(a, R::mul_spec(b, t)), R::sub_spec(a, R::mul_spec(b, t)))
            == R::add_spec(a, a),
        R::mul_spec(
            R::sub_spec(R::add_spec(a, R::mul_spec(b, t)), R::sub_spec(a, R::mul_spec(b, t))),
            ti,
        ) == R::add_spec(b, b),
{
    R::lemma_wf_params(a);
    R::lemma_identities_wf();
    let u = R::mul_spec(b, t);
    R::lemma_closed(b, t);
    R::lemma_closed(u, u);
    lemma_bfly_sum(a, u);
    lemma_bfly_diff(a, u);
    R::lemma_mul_laws(R::add_spec(u, u), ti, ti);
    R::lemma_mul_laws(ti, u, u);
    R::lemma_mul_laws(u, ti, ti);
    R::lemma_mul_laws(b, t, ti);
    R::lemma_mul_laws(b, R::one_spec(), R::one_spec());
}

/// `x` with every entry multiplied by `c`.
pub open spec fn smul<R: Ring>(x: Seq<R>, c: R) -> Seq<R> {
    Seq::new(x.len(), |k: int| R::mul_spec(x[k], c))
}

/// Position facts for entry `k` of a sequence of length `n` cut into blocks of length `2h`.
proof fn lemma_block(k: int, h: int, n: int)
    requires
        h > 0,
        n % (2 * h) == 0,
        0 <= k < n,
    ensures
        0 <= k % (2 * h) < 2 * h,
        (k - k % (2 * h)) % (2 * h) == 0,
        k - k % (2 * h) >= 0,
        k - k % (2 * h) + 2 * h <= n,
{
    let m = 2 * h;
    vstd::arithmetic::div_mod::lemma_fundamental_div_mod(k, m);
    let q = k / m;
    assert(q >= 0) by {
        vstd::arithmetic::div_mod::lemma_div_pos_is_pos(k, m);
    }
    assert(k - k % m == q * m) by (nonlinear_arith)
        requires
            k == m * q + k % m,
    ;
    vstd::arithmetic::div_mod::lemma_mod_multiples_basic(q, m);
    assert(q * m >= 0) by (nonlinear_arith)
        requires
            q >= 0,
            m > 0,
    ;
    lemma_next_chunk(k - k % m, m, n);
}

/// Every entry of a forward stage of valid sequences is valid.
proof fn lemma_fwd_stage_wf<R: Ring>(x: Seq<R>, h: nat, t: Seq<R>)
    requires
        h > 0,
        x.len() % (2 * h) == 0,
        t.len() == h,
        seq_wf(x),
        seq_wf(t),
    ensures
        seq_wf(fwd_stage(x, h, t)),
        fwd_stage(x, h, t).len() == x.len(),
{
    assert forall|k: int| 0 <= k < x.len() implies (#[trigger] fwd_stage(x, h, t)[k]).wf() by {
        lemma_block(k, h as int, x.len() as int);
        let p = k % (2 * h as int);
        let b = k - p;
        if p < h {
            R::lemma_closed(x[b + p + h], t[p]);
            R::lemma_closed(x[b + p], R::mul_spec(x[b + p + h], t[p]));
        } else {
            R::lemma_closed(x[b + p], t[p - h]);
            R::lemma_closed(x[b + p - h], R::mul_spec(x[b + p], t[p - h]));
        }
    }
}

/// A forward stage commutes with scaling every entry by `c`.
proof fn lemma_fwd_stage_smul<R: Ring>(x: Seq<R>, h: nat, t: Seq<R>, c: R)
    requires
        h > 0,
        x.len() % (2 * h) == 0,
        t.len() == h,
        seq_wf(x),
        seq_wf(t),
        c.wf(),
    ensures
        fwd_stage(smul(x, c), h, t) == smul(fwd_stage(x, h, t), c),
{
    let lhs = fwd_stage(smul(x, c), h, t);
    let rhs = smul(fwd_stage(x, h, t), c);
    assert forall|k: int| 0 <= k < x.len() implies #[trigger] lhs[k] == rhs[k] by {
        lemma_block(k, h as int, x.len() as int);
        let p = k % (2 * h as int);
        let b = k - p;
        if p < h {
            lemma_fwd_linear(x[b + p], x[b + p + h], t[p], c);
        } else {
            lemma_fwd_linear(x[b + p - h], x[b + p], t[p - h], c);
        }
    }
    assert(lhs =~= rhs);
}

/// An inverse stage right after a forward stage with pairwise inverse twiddles doubles
/// every entry (and applies the optional scale).
proof fn lemma_stage_pair<R: Ring>(z: Seq<R>, h: nat, t: Seq<R>, ti: Seq<R>, s: Option<R>)
    requires
        h > 0,
        z.len() % (2 * h) == 0,
        t.len() == h,
        ti.len() == h,
        seq_wf(z),
        seq_wf(t),
        seq_wf(ti),
        forall|p: int| 0 <= p < h ==> #[trigger] R::mul_spec(t[p], ti[p]) == R::one_spec(),
    ensures
        inv_stage(fwd_stage(z, h, t), h, ti, s) == Seq::new(
            z.len(),
            |k: int| scaled(R::add_spec(z[k], z[k]), s),
        ),
{
    let y = fwd_stage(z, h, t);
    let lhs = inv_stage(y, h, ti, s);
    let rhs = Seq::new(z.len(), |k: int| scaled(R::add_spec(z[k], z[k]), s));
    let m = 2 * h as int;
    assert forall|k: int| 0 <= k < z.len() implies #[trigger] lhs[k] == rhs[k] by {
        lemma_block(k, h as int, z.len() as int);
        let p = k % m;
        let b = k - p;
        if p < h {
            lemma_chunk_mod(b, m, b + p);
            lemma_chunk_mod(b, m, b + p + h);
            lemma_bfly_pair(z[b + p], z[b + p + h], t[p], ti[p]);
        } else {
            lemma_chunk_mod(b, m, b + p - h);
            lemma_chunk_mod(b, m, b + p);
            lemma_bfly_pair(z[b + p - h], z[b + p], t[p - h], ti[p - h]);
        }
    }
    assert(lhs =~= rhs);
}


/// `1^e = 1`.
pub(crate) proof fn lemma_pow_one<R: Ring>(e: nat)
    requires
        R::params_ok(),
    ensures
        pow_spec(R::one_spec(), e) == R::one_spec(),
    decreases e,
{
    R::lemma_identities_wf();
    if e > 0 {
        lemma_pow_one::<R>((e - 1) as nat);
        R::lemma_mul_laws(R::one_spec(), R::one_spec(), R::one_spec());
    }
}

/// The element `2^k` is valid.
proof fn lemma_two_pow_wf<R: Ring>(k: nat)
    requires
        R::params_ok(),
    ensures
        two_pow_elem::<R>(k).wf(),
    decreases k,
{
    R::lemma_identities_wf();
    if k > 0 {
        lemma_two_pow_wf::<R>((k - 1) as nat);
        R::lemma_closed(two_pow_elem::<R>((k - 1) as nat), two_pow_elem::<R>((k - 1) as nat));
    }
}

impl<R: Ring> NttPlan<R> {
    /// What the forward stages are built from: stage `s` uses the powers of
    /// `root^(n / 2^(s+1))`, where `root^n = 1` and `root^(n/2) = -1`.
    pub proof fn lemma_forward_facts(&self)
        requires
            self.wf(),
        ensures
            R::params_ok(),
            is_pow2(self.plan_len()),
            pow2(log2(self.plan_len())) == self.plan_len(),
            self.root().wf(),
            pow_spec(self.root(), self.plan_len()) == R::one_spec(),
            self.plan_len() > 1 ==> pow_spec(self.root(), self.plan_len() / 2) == R::neg_spec(
                R::one_spec(),
            ),
            self.forward_twiddles().len() == log2(self.plan_len()),
            forall|s: int|
                0 <= s < log2(self.plan_len()) ==> #[trigger] self.forward_twiddles()[s]
                    == powers_seq(
                    pow_spec(self.root(), self.plan_len() / pow2((s + 1) as nat)),
                    pow2(s as nat),
                ),
    {
        lemma_pow2_log2(self.plan_len());
        assert forall|s: int| 0 <= s < log2(self.plan_len()) implies #[trigger] self.forward_twiddles()[s]
            == powers_seq(
            pow_spec(self.root(), self.plan_len() / pow2((s + 1) as nat)),
            pow2(s as nat),
        ) by {
            assert(self.forward_twiddles()[s] == self.forward_stage_twiddles@[s]@);
        }
    }

    /// Facts about the plan's stages used by the transform proofs.
    proof fn lemma_stage_facts(&self, s: nat)
        requires
            self.wf(),
            s < log2(self.plan_len()),
        ensures
            pow2(log2(self.plan_len())) == self.plan_len(),
            self.forward_twiddles().len() == log2(self.plan_len()),
            self.inverse_twiddles().len() == log2(self.plan_len()),
            self.forward_twiddles()[s as int].len() == pow2(s),
            seq_wf(self.forward_twiddles()[s as int]),
            self.inverse_twiddles()[s as int].len() == pow2((log2(self.plan_len()) - 1 - s) as nat),
            seq_wf(self.inverse_twiddles()[s as int]),
            (self.plan_len() as int) % (2 * pow2(s) as int) == 0,
            forall|p: int|
                0 <= p < pow2((log2(self.plan_len()) - 1 - s) as nat) ==> #[trigger] R::mul_spec(
                    self.forward_twiddles()[(log2(self.plan_len()) - 1 - s) as int][p],
                    self.inverse_twiddles()[s as int][p],
                ) == R::one_spec(),
    {
        let n = self.plan_len();
        let l = log2(n);
        let root = self.root@;
        let inv = self.inv_root@;
        lemma_pow2_log2(n);
        vstd::arithmetic::power2::lemma2_to64();
        lemma_pow2_div((s + 1) as nat, l);
        lemma_pow2_adds(1, s);
        assert(1 + s == (s + 1) as nat);
        assert(self.forward_twiddles()[s as int] == self.forward_stage_twiddles@[s as int]@);
        assert(self.inverse_twiddles()[s as int] == self.inverse_stage_twiddles@[s as int]@);
        crate::arith::ring::lemma_pow_wf(root, n / pow2((s + 1) as nat));
        lemma_powers_seq_wf(pow_spec(root, n / pow2((s + 1) as nat)), pow2(s));
        crate::arith::ring::lemma_pow_wf(inv, pow2(s));
        lemma_powers_seq_wf(pow_spec(inv, pow2(s)), n / pow2((s + 1) as nat));
        // The paired forward stage `l - 1 - s` uses the powers of `root^(2^s)`.
        let f = (l - 1 - s) as nat;
        lemma_pow2_div((f + 1) as nat, l);
        assert((l - (f + 1) as nat) as nat == s);
        assert(self.forward_twiddles()[f as int] == self.forward_stage_twiddles@[f as int]@);
        let a = pow_spec(root, pow2(s));
        let b = pow_spec(inv, pow2(s));
        crate::arith::ring::lemma_pow_wf(root, pow2(s));
        crate::arith::ring::lemma_pow_mul_distributes(root, inv, pow2(s));
        lemma_pow_one::<R>(pow2(s));
        assert forall|p: int| 0 <= p < pow2(f) implies #[trigger] R::mul_spec(
            self.forward_twiddles()[f as int][p],
            self.inverse_twiddles()[s as int][p],
        ) == R::one_spec() by {
            crate::arith::ring::lemma_pow_mul_distributes(a, b, p as nat);
            lemma_pow_one::<R>(p as nat);
        }
    }

    /// One inverse stage after the inverse stages before it: if the first `t - 1`
    /// inverse stages turned the forward transform into the partial forward transform
    /// `F(l - t + 1)` scaled by `2^(t-1)`, the `t`-th turns it into `F(l - t)` scaled
    /// by `2^t` (and by `scale` in the last stage).
    proof fn lemma_round_trip_step(&self, x: Seq<R>, t: nat)
        requires
            self.wf(),
            x.len() == self.plan_len(),
            seq_wf(x),
            1 <= t <= log2(self.plan_len()),
            inv_upto(
                self.forward_spec(x),
                self.inverse_twiddles(),
                log2(self.plan_len()),
                self.scale(),
                (t - 1) as nat,
            ) == smul(
                fwd_upto(x, self.forward_twiddles(), log2(self.plan_len()), (log2(self.plan_len()) - t + 1) as nat),
                two_pow_elem::<R>((t - 1) as nat),
            ),
        ensures
            inv_upto(self.forward_spec(x), self.inverse_twiddles(), log2(self.plan_len()), self.scale(), t)
                == Seq::new(
                x.len(),
                |k: int|
                    scaled(
                        R::mul_spec(
                            fwd_upto(x, self.forward_twiddles(), log2(self.plan_len()), (log2(self.plan_len()) - t) as nat)[k],
                            two_pow_elem::<R>(t),
                        ),
                        if t == log2(self.plan_len()) {
                            Some(self.scale())
                        } else {
                            None
                        },
                    ),
            ),
            seq_wf(fwd_upto(x, self.forward_twiddles(), log2(self.plan_len()), (log2(self.plan_len()) - t) as nat)),
            fwd_upto(x, self.forward_twiddles(), log2(self.plan_len()), (log2(self.plan_len()) - t) as nat).len() == x.len(),
    {
        let n = self.plan_len();
        let l = log2(n);
        let fw = self.forward_twiddles();
        let iw = self.inverse_twiddles();
        let s = (l - t) as nat;
        self.lemma_stage_facts((t - 1) as nat);
        self.lemma_stage_facts(s);
        assert((l - 1 - (t - 1) as nat) as nat == s);
        lemma_fwd_upto_wf(self, x, s);
        let fs = fwd_upto(x, fw, l, s);
        let h = pow2(s);
        lemma_pow2_pos(s);
        let c = two_pow_elem::<R>((t - 1) as nat);
        lemma_two_pow_wf::<R>((t - 1) as nat);
        assert((s + 1) as nat == (l - t + 1) as nat);
        assert(fwd_upto(x, fw, l, (s + 1) as nat) == fwd_stage(fs, h, fw[s as int]));
        lemma_fwd_stage_smul(fs, h, fw[s as int], c);
        let z = smul(fs, c);
        assert forall|k: int| 0 <= k < z.len() implies (#[trigger] z[k]).wf() by {
            R::lemma_closed(fs[k], c);
        }
        assert((l - 1 - (t - 1) as nat) as nat == s);
        let sc = if t == l {
            Some(self.scale())
        } else {
            None
        };
        lemma_stage_pair(z, h, fw[s as int], iw[(t - 1) as int], sc);
        assert(pow2((l - t) as nat) == h);
        let lhs = inv_upto(self.forward_spec(x), iw, l, self.scale(), t);
        let rhs = Seq::new(x.len(), |k: int| scaled(R::mul_spec(fs[k], two_pow_elem::<R>(t)), sc));
        assert forall|k: int| 0 <= k < x.len() implies #[trigger] lhs[k] == rhs[k] by {
            R::lemma_mul_laws(fs[k], c, c);
        }
        assert(lhs =~= rhs);
    }

    /// The first `t < l` inverse stages undo the last `t` forward stages, up to a
    /// factor `2^t`.
    proof fn lemma_round_trip_partial(&self, x: Seq<R>, t: nat)
        requires
            self.wf(),
            x.len() == self.plan_len(),
            seq_wf(x),
            t < log2(self.plan_len()),
        ensures
            inv_upto(self.forward_spec(x), self.inverse_twiddles(), log2(self.plan_len()), self.scale(), t)
                == smul(
                fwd_upto(x, self.forward_twiddles(), log2(self.plan_len()), (log2(self.plan_len()) - t) as nat),
                two_pow_elem::<R>(t),
            ),
        decreases t,
    {
        let l = log2(self.plan_len());
        let fw = self.forward_twiddles();
        if t == 0 {
            lemma_fwd_upto_wf(self, x, l);
            let y = fwd_upto(x, fw, l, l);
            R::lemma_identities_wf();
            assert forall|k: int| 0 <= k < y.len() implies #[trigger] smul(y, R::one_spec())[k] == y[k] by {
                R::lemma_mul_laws(y[k], R::one_spec(), R::one_spec());
            }
            assert(smul(y, two_pow_elem::<R>(0)) =~= y);
        } else {
            self.lemma_round_trip_partial(x, (t - 1) as nat);
            assert((l - (t - 1) as nat) as nat == (l - t + 1) as nat);
            self.lemma_round_trip_step(x, t);
            let fs = fwd_upto(x, fw, l, (l - t) as nat);
            assert(inv_upto(self.forward_spec(x), self.inverse_twiddles(), l, self.scale(), t) =~= smul(fs, two_pow_elem::<R>(t)));
        }
    }
}

/// The partial forward transforms are valid sequences of the input's length.
pub(crate) proof fn lemma_fwd_upto_wf<R: Ring>(plan: &NttPlan<R>, x: Seq<R>, s: nat)
    requires
        plan.wf(),
        x.len() == plan.plan_len(),
        seq_wf(x),
        s <= log2(plan.plan_len()),
    ensures
        seq_wf(fwd_upto(x, plan.forward_twiddles(), log2(plan.plan_len()), s)),
        fwd_upto(x, plan.forward_twiddles(), log2(plan.plan_len()), s).len() == x.len(),
    decreases s,
{
    let l = log2(plan.plan_len());
    if s == 0 {
        lemma_pow2_log2(plan.plan_len());
        assert forall|k: int| 0 <= k < x.len() implies (#[trigger] bitrev_seq(x, l)[k]).wf() by {
            lemma_rev_bound(k as nat, l);
        }
    } else {
        lemma_fwd_upto_wf(plan, x, (s - 1) as nat);
        plan.lemma_stage_facts((s - 1) as nat);
        lemma_pow2_pos((s - 1) as nat);
        lemma_fwd_stage_wf(
            fwd_upto(x, plan.forward_twiddles(), l, (s - 1) as nat),
            pow2((s - 1) as nat),
            plan.forward_twiddles()[s - 1],
        );
    }
}

/// The inverse transform undoes the forward transform under the same plan:
/// for every valid input `x` of the plan's length, `inverse(forward(x)) == x`.
pub proof fn lemma_ntt_round_trip<R: Ring>(plan: &NttPlan<R>, x: Seq<R>)
    requires
        plan.wf(),
        x.len() == plan.plan_len(),
        seq_wf(x),
    ensures
        plan.inverse_spec(plan.forward_spec(x)) == x,
{
    let n = plan.plan_len();
    let l = log2(n);
    let fw = plan.forward_twiddles();
    lemma_pow2_log2(n);
    let b = bitrev_seq(x, l);
    let g = inv_upto(plan.forward_spec(x), plan.inverse_twiddles(), l, plan.scale(), l);
    if l == 0 {
        assert(g == b);
    } else {
        plan.lemma_round_trip_partial(x, (l - 1) as nat);
        assert((l - (l - 1) as nat) as nat == 1);
        plan.lemma_round_trip_step(x, l);
        assert(fwd_upto(x, fw, l, 0) == b);
        lemma_two_pow_wf::<R>(l);
        R::lemma_identities_wf();
        assert forall|k: int| 0 <= k < n implies #[trigger] g[k] == b[k] by {
            lemma_rev_bound(k as nat, l);
            R::lemma_mul_laws(b[k], two_pow_elem::<R>(l), plan.scale());
            R::lemma_mul_laws(two_pow_elem::<R>(l), plan.scale(), plan.scale());
            R::lemma_mul_laws(b[k], R::one_spec(), R::one_spec());
        }
        assert(g =~= b);
    }
    assert forall|k: int| 0 <= k < n implies #[trigger] bitrev_seq(b, l)[k] == x[k] by {
        lemma_rev_bound(k as nat, l);
        lemma_rev_involution(k as nat, l);
    }
    assert(bitrev_seq(g, l) =~= x);
}


/// A ring element has at most one multiplicative inverse.
pub(crate) proof fn lemma_inverse_unique<R: Ring>(a: R, v1: R, v2: R)
    requires
        a.wf(),
        v1.wf(),
        v2.wf(),
        R::mul_spec(a, v1) == R::one_spec(),
        R::mul_spec(a, v2) == R::one_spec(),
    ensures
        v1 == v2,
{
    R::lemma_wf_params(a);
    R::lemma_identities_wf();
    R::lemma_mul_laws(v1, a, v2);
    R::lemma_mul_laws(a, v1, v2);
    R::lemma_mul_laws(v1, R::one_spec(), R::one_spec());
    R::lemma_mul_laws(R::one_spec(), v2, v2);
    R::lemma_mul_laws(v2, R::one_spec(), R::one_spec());
}

/// Two valid plans of one length built on one root of unity are the same transform:
/// their stages and scale agree, so they map every input alike, forwards and back.
pub proof fn lemma_plans_agree<R: Ring>(p1: &NttPlan<R>, p2: &NttPlan<R>)
    requires
        p1.wf(),
        p2.wf(),
        p1.plan_len() == p2.plan_len(),
        p1.root() == p2.root(),
    ensures
        p1.forward_twiddles() == p2.forward_twiddles(),
        p1.inverse_twiddles() == p2.inverse_twiddles(),
        p1.scale() == p2.scale(),
        forall|x: Seq<R>| #[trigger] p1.forward_spec(x) == p2.forward_spec(x),
        forall|y: Seq<R>| #[trigger] p1.inverse_spec(y) == p2.inverse_spec(y),
{
    let n = p1.plan_len();
    let l = log2(n);
    lemma_inverse_unique(p1.root(), p1.inv_root(), p2.inv_root());
    lemma_two_pow_wf::<R>(l);
    R::lemma_mul_laws(p1.scale(), two_pow_elem::<R>(l), two_pow_elem::<R>(l));
    R::lemma_mul_laws(p2.scale(), two_pow_elem::<R>(l), two_pow_elem::<R>(l));
    lemma_inverse_unique(two_pow_elem::<R>(l), p1.scale(), p2.scale());
    assert(p1.forward_twiddles() =~= p2.forward_twiddles());
    assert(p1.inverse_twiddles() =~= p2.inverse_twiddles());
}

/// A transform that builds its own plan is undone by the inverse transform that
/// builds its own: both plans rest on the ring's one root of unity for that length,
/// so for every valid input `x`, inverting the forward transform of `x` gives back
/// `x`.
pub proof fn lemma_ntt_self_round_trip<R: NTTRing>(x: Seq<R>, y: Seq<R>, z: Seq<R>)
    requires
        seq_wf(x),
        forward_outcome(x, y, Ok(()), R::root_spec(x.len())),
        inverse_outcome(y, z, Ok(()), R::root_spec(y.len())),
    ensures
        z == x,
{
    let p1 = choose|p: NttPlan<R>|
        #![trigger p.forward_spec(x)]
        is_ring_plan(p, x.len(), R::root_spec(x.len())) && y == p.forward_spec(x);
    lemma_pow2_log2(p1.plan_len());
    lemma_fwd_upto_wf(&p1, x, log2(p1.plan_len()));
    let p2 = choose|p: NttPlan<R>|
        #![trigger p.inverse_spec(y)]
        is_ring_plan(p, y.len(), R::root_spec(y.len())) && z == p.inverse_spec(y);
    lemma_plans_agree(&p1, &p2);
    lemma_ntt_round_trip(&p1, x);
}

} // verus!
