//! Multi-limb unsigned integer type for modular arithmetic.
//!
//! Provides a fixed-size big integer represented as an array of `u64` limbs
//! in little-endian order (least significant limb first).
use vstd::arithmetic::div_mod::{lemma_fundamental_div_mod, lemma_mod_bound, lemma_small_mod};
use vstd::arithmetic::mul::{lemma_mul_inequality, lemma_mul_strict_inequality};
use vstd::arithmetic::power2::{lemma2_to64, lemma_pow2_adds, lemma_pow2_pos, lemma_pow2_strictly_increases, pow2};
use vstd::bits::{lemma_u64_pow2_no_overflow, lemma_u64_shl_is_mul, lemma_u64_shr_is_div};
use core::cmp::Ordering;
use vstd::prelude::*;
use vstd::std_specs::cmp::{PartialEqSpecImpl, PartialOrdSpecImpl};

verus! {

/// `2^(64 * i)`, the weight of limb `i`.
pub open spec fn limb_pow(i: nat) -> nat
    decreases i,
{
    if i == 0 {
        1
    } else {
        limb_pow((i - 1) as nat) * 0x1_0000_0000_0000_0000
    }
}

/// The integer denoted by little-endian limbs.
pub open spec fn limbs_value(s: Seq<u64>) -> nat
    decreases s.len(),
{
    if s.len() == 0 {
        0
    } else {
        limbs_value(s.drop_last()) + (s.last() as nat) * limb_pow((s.len() - 1) as nat)
    }
}

/// Limb weights are positive and grow by `2^64` per limb.
pub proof fn lemma_limb_pow(i: nat)
    ensures
        limb_pow(i) > 0,
        limb_pow(i + 1) == limb_pow(i) * 0x1_0000_0000_0000_0000,
    decreases i,
{
    if i > 0 {
        lemma_limb_pow((i - 1) as nat);
        assert(limb_pow((i - 1) as nat) * 0x1_0000_0000_0000_0000 > 0) by (nonlinear_arith)
            requires
                limb_pow((i - 1) as nat) > 0,
        ;
    }
}

/// The first `n` limbs of `v`: limb `i` is `floor(v / 2^(64 i)) mod 2^64`.
pub open spec fn limbs_of(v: nat, n: nat) -> Seq<u64> {
    Seq::new(n, |i: int| ((v / limb_pow(i as nat)) % 0x1_0000_0000_0000_0000) as u64)
}

/// The first `n` limbs of `v` denote `v mod 2^(64 n)`.
pub proof fn lemma_limbs_of(v: nat, n: nat)
    ensures
        limbs_of(v, n).len() == n,
        limbs_value(limbs_of(v, n)) == v % limb_pow(n),
    decreases n,
{
    if n == 0 {
        vstd::arithmetic::div_mod::lemma_mod_bound(v as int, 1);
    } else {
        let m = (n - 1) as nat;
        lemma_limbs_of(v, m);
        lemma_limb_pow(m);
        assert(limbs_of(v, n).drop_last() =~= limbs_of(v, m));
        vstd::arithmetic::div_mod::lemma_mod_breakdown(v as int, limb_pow(m) as int, 0x1_0000_0000_0000_0000);
        vstd::arithmetic::div_mod::lemma_mod_bound((v / limb_pow(m)) as int, 0x1_0000_0000_0000_0000);
        let d = (v / limb_pow(m)) % 0x1_0000_0000_0000_0000;
        assert(limbs_of(v, n).last() as nat == d);
        assert(limb_pow(m) * d == d * limb_pow(m)) by (nonlinear_arith);
    }
}

/// An array whose first `k` entries are those of `s` (the rest zero).
pub open spec fn array_from_limbs<const N: usize>(s: Seq<u64>, k: nat) -> [u64; N]
    decreases k,
{
    if k == 0 {
        vstd::array::spec_array_fill_for_copy_type::<u64, N>(0u64)
    } else {
        vstd::array::spec_array_update(array_from_limbs::<N>(s, (k - 1) as nat), (k - 1) as int, s[k - 1])
    }
}

/// An array built from `N` limbs has exactly those limbs.
pub proof fn lemma_array_from_limbs<const N: usize>(s: Seq<u64>, k: nat)
    requires
        k <= N,
    ensures
        array_from_limbs::<N>(s, k)@.len() == N,
        forall|i: int| 0 <= i < k ==> #[trigger] array_from_limbs::<N>(s, k)@[i] == s[i],
        forall|i: int| k <= i < N ==> #[trigger] array_from_limbs::<N>(s, k)@[i] == 0,
    decreases k,
{
    let a = array_from_limbs::<N>(s, k);
    assert(a@.len() == N);
    if k > 0 {
        lemma_array_from_limbs::<N>(s, (k - 1) as nat);
        let b = array_from_limbs::<N>(s, (k - 1) as nat);
        assert(a@ == b@.update((k - 1) as int, s[k - 1]));
    } else {
        assert(forall|i: int| 0 <= i < N ==> a@[i] == 0u64);
    }
}

/// Limb weights are monotone.
pub proof fn lemma_limb_pow_mono(i: nat, j: nat)
    requires
        i <= j,
    ensures
        limb_pow(i) <= limb_pow(j),
    decreases j - i,
{
    if i < j {
        lemma_limb_pow_mono(i, (j - 1) as nat);
        lemma_limb_pow((j - 1) as nat);
    }
}

/// `limb_pow(i + j) == limb_pow(i) * limb_pow(j)`.
pub proof fn lemma_limb_pow_add(i: nat, j: nat)
    ensures
        limb_pow(i + j) == limb_pow(i) * limb_pow(j),
    decreases j,
{
    if j > 0 {
        let j1 = (j - 1) as nat;
        lemma_limb_pow_add(i, j1);
        lemma_limb_pow(i + j1);
        lemma_limb_pow(j1);
        assert(i + j == i + j1 + 1);
        let a = limb_pow(i);
        let b = limb_pow(j1);
        assert(limb_pow(i + j1) == a * b);
        assert(limb_pow(i + j) == limb_pow(i + j1) * 0x1_0000_0000_0000_0000);
        assert(limb_pow(j) == b * 0x1_0000_0000_0000_0000);
        assert(a * (b * 0x1_0000_0000_0000_0000) == (a * b) * 0x1_0000_0000_0000_0000)
            by (nonlinear_arith);
    } else {
        assert(limb_pow(0) == 1);
        assert(limb_pow(i) * 1 == limb_pow(i));
    }
}

/// A value of `n` limbs is below `limb_pow(n)`.
pub proof fn lemma_limbs_value_bound(s: Seq<u64>)
    ensures
        limbs_value(s) < limb_pow(s.len()),
    decreases s.len(),
{
    if s.len() > 0 {
        let n = (s.len() - 1) as nat;
        lemma_limbs_value_bound(s.drop_last());
        lemma_limb_pow(n);
        let p = limb_pow(n);
        let v = limbs_value(s.drop_last());
        let l = s.last();
        assert(v + l * p < p * 0x1_0000_0000_0000_0000) by (nonlinear_arith)
            requires
                v < p,
                l <= 0xffff_ffff_ffff_ffff,
                l >= 0,
        ;
    }
}

/// The value of a prefix grows by one weighted limb.
pub proof fn lemma_limbs_value_take(s: Seq<u64>, i: int)
    requires
        0 <= i < s.len(),
    ensures
        limbs_value(s.take(i + 1)) == limbs_value(s.take(i)) + s[i] * limb_pow(i as nat),
{
    assert(s.take(i + 1).drop_last() =~= s.take(i));
}

/// Concatenation: `value(a + b) == value(a) + limb_pow(|a|) * value(b)`.
pub proof fn lemma_limbs_value_concat(a: Seq<u64>, b: Seq<u64>)
    ensures
        limbs_value(a + b) == limbs_value(a) + limb_pow(a.len()) * limbs_value(b),
    decreases b.len(),
{
    if b.len() == 0 {
        assert(a + b =~= a);
        assert(limbs_value(b) == 0);
        assert(limb_pow(a.len()) * 0 == 0);
    } else {
        lemma_limbs_value_concat(a, b.drop_last());
        assert((a + b).drop_last() =~= a + b.drop_last());
        lemma_limb_pow_add(a.len(), (b.len() - 1) as nat);
        let pa = limb_pow(a.len());
        let pb = limb_pow((b.len() - 1) as nat);
        let vb = limbs_value(b.drop_last());
        let l = b.last();
        assert((a + b).last() == l);
        assert(limbs_value(a + b) == limbs_value(a + b.drop_last()) + l * limb_pow(
            (a.len() + b.len() - 1) as nat,
        ));
        assert(limbs_value(b) == vb + l * pb);
        assert(pa * vb + l * (pa * pb) == pa * (vb + l * pb)) by (nonlinear_arith);
    }
}

/// Splitting at `i`: `value(s) == value(s[..i]) + limb_pow(i) * value(s[i..])`.
pub proof fn lemma_limbs_value_split(s: Seq<u64>, i: int)
    requires
        0 <= i <= s.len(),
    ensures
        limbs_value(s) == limbs_value(s.take(i)) + limb_pow(i as nat) * limbs_value(s.skip(i)),
{
    assert(s =~= s.take(i) + s.skip(i));
    lemma_limbs_value_concat(s.take(i), s.skip(i));
}

/// Updating limb `k` changes the value by the weighted difference.
pub proof fn lemma_limbs_value_update(s: Seq<u64>, k: int, x: u64)
    requires
        0 <= k < s.len(),
    ensures
        limbs_value(s.update(k, x)) + s[k] * limb_pow(k as nat) == limbs_value(s) + x * limb_pow(
            k as nat,
        ),
{
    let t = s.update(k, x);
    lemma_limbs_value_split(s, k);
    lemma_limbs_value_split(t, k);
    assert(t.take(k) =~= s.take(k));
    lemma_limbs_value_split(s.skip(k), 1);
    lemma_limbs_value_split(t.skip(k), 1);
    assert(t.skip(k).skip(1) =~= s.skip(k).skip(1));
    lemma_limbs_value_single(s.skip(k).take(1));
    lemma_limbs_value_single(t.skip(k).take(1));
    lemma_limb_pow_add(k as nat, 1);
    let pk = limb_pow(k as nat);
    let rest = limbs_value(s.skip(k).skip(1));
    assert(pk * (s[k] + limb_pow(1) * rest) + x * pk == pk * (x + limb_pow(1) * rest) + s[k] * pk)
        by (nonlinear_arith);
}

/// A single limb denotes itself.
pub proof fn lemma_limbs_value_single(s: Seq<u64>)
    requires
        s.len() == 1,
    ensures
        limbs_value(s) == s[0],
{
    assert(s.drop_last().len() == 0);
    assert(limbs_value(s.drop_last()) == 0);
    assert(limb_pow(0) == 1);
    assert(s.last() == s[0]);
    let l = s[0] as nat;
    assert(l * 1 == l);
    assert(limbs_value(s) == limbs_value(s.drop_last()) + (s.last() as nat) * limb_pow(0));
}

/// A sequence of zero limbs has value zero.
pub proof fn lemma_limbs_value_zeros(s: Seq<u64>)
    requires
        forall|i: int| 0 <= i < s.len() ==> s[i] == 0,
    ensures
        limbs_value(s) == 0,
    decreases s.len(),
{
    if s.len() > 0 {
        lemma_limbs_value_zeros(s.drop_last());
    }
}

/// Limb sequences of equal length with equal values are equal.
pub proof fn lemma_limbs_value_injective(a: Seq<u64>, b: Seq<u64>)
    requires
        a.len() == b.len(),
        limbs_value(a) == limbs_value(b),
    ensures
        a == b,
    decreases a.len(),
{
    if a.len() > 0 {
        let n = (a.len() - 1) as nat;
        lemma_limbs_value_bound(a.drop_last());
        lemma_limbs_value_bound(b.drop_last());
        lemma_limb_pow(n);
        let p = limb_pow(n);
        let va = limbs_value(a.drop_last());
        let vb = limbs_value(b.drop_last());
        assert(a.last() == b.last()) by {
            if a.last() < b.last() {
                assert(va + a.last() * p < vb + b.last() * p) by (nonlinear_arith)
                    requires
                        va < p,
                        vb >= 0,
                        a.last() < b.last(),
                ;
            } else if a.last() > b.last() {
                assert(vb + b.last() * p < va + a.last() * p) by (nonlinear_arith)
                    requires
                        vb < p,
                        va >= 0,
                        b.last() < a.last(),
                ;
            }
        }
        lemma_limbs_value_injective(a.drop_last(), b.drop_last());
        assert(a =~= a.drop_last().push(a.last()));
        assert(b =~= b.drop_last().push(b.last()));
    }
}

/// `a + b + c` as a low limb and a carry.
fn add_limbs(a: u64, b: u64, c: u64) -> (r: (u64, u64))
    requires
        c <= 1,
    ensures
        r.0 + r.1 * 0x1_0000_0000_0000_0000 == a + b + c,
        r.1 <= 1,
{
    let t: u128 = a as u128 + b as u128 + c as u128;
    let lo = t as u64;
    let hi = (t >> 64) as u64;
    proof {
        assert(lo == t % 0x1_0000_0000_0000_0000 && hi == t / 0x1_0000_0000_0000_0000) by (bit_vector)
            requires
                lo == t as u64,
                hi == (t >> 64) as u64,
                t < 0x3_0000_0000_0000_0000,
        ;
    }
    (lo, hi)
}

/// `a - b - c` as a low limb and a borrow.
fn sub_limbs(a: u64, b: u64, c: u64) -> (r: (u64, u64))
    requires
        c <= 1,
    ensures
        r.0 - r.1 * 0x1_0000_0000_0000_0000 == a - b - c,
        r.1 <= 1,
        r.1 == 1 <==> (a as int) < b + c,
{
    let t: u128 = (a as u128 + 0x1_0000_0000_0000_0000) - b as u128 - c as u128;
    let lo = t as u64;
    let hi = (t >> 64) as u64;
    proof {
        assert(lo == t % 0x1_0000_0000_0000_0000 && hi == t / 0x1_0000_0000_0000_0000) by (bit_vector)
            requires
                lo == t as u64,
                hi == (t >> 64) as u64,
                t < 0x2_0000_0000_0000_0000,
        ;
    }
    (lo, 1 - hi)
}

/// `a * b + c + d` as a low limb and a high limb.
fn mul_add_limbs(a: u64, b: u64, c: u64, d: u64) -> (r: (u64, u64))
    ensures
        r.0 + r.1 * 0x1_0000_0000_0000_0000 == a * b + c + d,
{
    proof {
        assert(a * b <= 0xffff_ffff_ffff_fffe_0000_0000_0000_0001) by (nonlinear_arith)
            requires
                a <= 0xffff_ffff_ffff_ffff,
                b <= 0xffff_ffff_ffff_ffff,
        ;
    }
    let t: u128 = (a as u128) * (b as u128) + c as u128 + d as u128;
    let lo = t as u64;
    let hi = (t >> 64) as u64;
    proof {
        assert(lo == t % 0x1_0000_0000_0000_0000 && hi == t / 0x1_0000_0000_0000_0000) by (bit_vector)
            requires
                lo == t as u64,
                hi == (t >> 64) as u64,
        ;
    }
    (lo, hi)
}

/// The carry bookkeeping of one limb step: if the new limb and carry encode
/// `a + b + c`, the weighted running sums agree after the step.
proof fn lemma_carry_step(p: nat, a: int, b: int, c: int, limb: nat, carry_out: int)
    requires
        limb + carry_out * 0x1_0000_0000_0000_0000 == a + b + c,
    ensures
        limb * p + carry_out * (p * 0x1_0000_0000_0000_0000) == a * p + b * p + c * p,
{
    assert(limb * p + carry_out * (p * 0x1_0000_0000_0000_0000) == (limb + carry_out
        * 0x1_0000_0000_0000_0000) * p) by (nonlinear_arith);
    assert((a + b + c) * p == a * p + b * p + c * p) by (nonlinear_arith);
}


/// Replacing limb `k` by `x` while passing carry `c_in` in and `c_out` on keeps
/// the weighted total.
proof fn lemma_update_carry(s: Seq<u64>, k: int, x: u64, c_in: int, c_out: int)
    requires
        0 <= k < s.len(),
        x + c_out * 0x1_0000_0000_0000_0000 == s[k] + c_in,
    ensures
        limbs_value(s.update(k, x)) + c_out * limb_pow((k + 1) as nat) == limbs_value(s) + c_in
            * limb_pow(k as nat),
{
    lemma_limbs_value_update(s, k, x);
    lemma_limb_pow(k as nat);
    let p = limb_pow(k as nat);
    assert(x * p + c_out * (p * 0x1_0000_0000_0000_0000) == s[k] * p + c_in * p) by (nonlinear_arith)
        requires
            x + c_out * 0x1_0000_0000_0000_0000 == s[k] + c_in,
    ;
}

/// Subtracting limb `k` with borrow: if `x - b_out * 2^64 == s[k] - b_in`, the
/// weighted total drops by `b_in` at `k` and rises by `b_out` at `k + 1`.
proof fn lemma_update_borrow(s: Seq<u64>, k: int, x: u64, b_in: int, b_out: int)
    requires
        0 <= k < s.len(),
        x - b_out * 0x1_0000_0000_0000_0000 == s[k] - b_in,
    ensures
        limbs_value(s.update(k, x)) - b_out * limb_pow((k + 1) as nat) == limbs_value(s) - b_in
            * limb_pow(k as nat),
{
    lemma_limbs_value_update(s, k, x);
    lemma_limb_pow(k as nat);
    let p = limb_pow(k as nat);
    assert(x * p - b_out * (p * 0x1_0000_0000_0000_0000) == s[k] * p - b_in * p) by (nonlinear_arith)
        requires
            x - b_out * 0x1_0000_0000_0000_0000 == s[k] - b_in,
    ;
}

/// Peeling the lowest limb of a suffix: `value(s[i..]) == s[i] + 2^64 * value(s[i+1..])`.
pub proof fn lemma_limbs_value_skip(s: Seq<u64>, i: int)
    requires
        0 <= i < s.len(),
    ensures
        limbs_value(s.skip(i)) == s[i] + 0x1_0000_0000_0000_0000 * limbs_value(s.skip(i + 1)),
{
    lemma_limbs_value_split(s.skip(i), 1);
    lemma_limbs_value_single(s.skip(i).take(1));
    assert(s.skip(i).skip(1) =~= s.skip(i + 1));
    lemma_limb_pow(0);
}

/// Two limb sequences that agree above `k` and have `a[k] < b[k]` compare as `a < b`.
proof fn lemma_limbs_value_lt_at(a: Seq<u64>, b: Seq<u64>, k: int)
    requires
        a.len() == b.len(),
        0 <= k < a.len(),
        a[k] < b[k],
        a.skip(k + 1) == b.skip(k + 1),
    ensures
        limbs_value(a) < limbs_value(b),
{
    lemma_limbs_value_split(a, k);
    lemma_limbs_value_split(b, k);
    lemma_limbs_value_skip(a, k);
    lemma_limbs_value_skip(b, k);
    lemma_limbs_value_bound(a.take(k));
    lemma_limb_pow(k as nat);
    let p = limb_pow(k as nat);
    let r = limbs_value(a.skip(k + 1));
    let ta = limbs_value(a.take(k));
    let tb = limbs_value(b.take(k));
    assert(ta + p * (a[k] + 0x1_0000_0000_0000_0000 * r) < tb + p * (b[k] + 0x1_0000_0000_0000_0000
        * r)) by (nonlinear_arith)
        requires
            ta < p,
            tb >= 0,
            a[k] < b[k],
            p > 0,
    ;
}


/// The three-way comparison of two naturals.
pub open spec fn order_of(a: nat, b: nat) -> Ordering {
    if a < b {
        Ordering::Less
    } else if a == b {
        Ordering::Equal
    } else {
        Ordering::Greater
    }
}

/// `a` and `b` agree from limb `i` upward.
pub open spec fn agree_from(a: Seq<u64>, b: Seq<u64>, i: usize) -> bool {
    a.skip(i as int) == b.skip(i as int)
}

/// Agreement from `j = i + 1` and at `i` gives agreement from `i`.
proof fn lemma_agree_step(a: Seq<u64>, b: Seq<u64>, i: usize, j: usize)
    requires
        a.len() == b.len(),
        i < a.len(),
        j == i + 1,
        agree_from(a, b, j),
        a[i as int] == b[i as int],
    ensures
        agree_from(a, b, i),
{
    assert(a.skip(i as int) =~= seq![a[i as int]] + a.skip(j as int));
    assert(b.skip(i as int) =~= seq![b[i as int]] + b.skip(j as int));
}

/// A differing limb with agreement above decides the order of the values.
proof fn lemma_order_at(a: Seq<u64>, b: Seq<u64>, i: usize, j: usize)
    requires
        a.len() == b.len(),
        i < a.len(),
        j == i + 1,
        agree_from(a, b, j),
        a[i as int] != b[i as int],
    ensures
        a[i as int] < b[i as int] ==> limbs_value(a) < limbs_value(b),
        a[i as int] > b[i as int] ==> limbs_value(a) > limbs_value(b),
{
    if a[i as int] < b[i as int] {
        lemma_limbs_value_lt_at(a, b, i as int);
    } else {
        lemma_limbs_value_lt_at(b, a, i as int);
    }
}

/// Any two sequences of length `n` agree from `n` upward.
proof fn lemma_agree_end(a: Seq<u64>, b: Seq<u64>, n: usize)
    requires
        a.len() == n,
        b.len() == n,
    ensures
        agree_from(a, b, n),
{
    assert(a.skip(n as int) =~= b.skip(n as int));
}

/// Agreement everywhere means equal sequences.
proof fn lemma_agree_all(a: Seq<u64>, b: Seq<u64>)
    requires
        agree_from(a, b, 0),
    ensures
        a == b,
{
    assert(a.skip(0) =~= a);
    assert(b.skip(0) =~= b);
}


/// All-ones limbs denote `limb_pow(n) - 1`.
proof fn lemma_limbs_value_all_ones(s: Seq<u64>)
    requires
        forall|i: int| 0 <= i < s.len() ==> s[i] == 0xffff_ffff_ffff_ffff,
    ensures
        limbs_value(s) == limb_pow(s.len()) - 1,
    decreases s.len(),
{
    if s.len() > 0 {
        let n = (s.len() - 1) as nat;
        lemma_limbs_value_all_ones(s.drop_last());
        lemma_limb_pow(n);
        let p = limb_pow(n);
        assert(p - 1 + 0xffff_ffff_ffff_ffff * p == p * 0x1_0000_0000_0000_0000 - 1)
            by (nonlinear_arith);
    }
}


/// `limb_pow(i) == 2^(64 i)`.
pub proof fn lemma_limb_pow_pow2(i: nat)
    ensures
        limb_pow(i) == pow2(64 * i),
    decreases i,
{
    if i == 0 {
        lemma2_to64();
    } else {
        lemma_limb_pow_pow2((i - 1) as nat);
        lemma_pow2_adds(64 * ((i - 1) as nat), 64);
        vstd::arithmetic::power2::lemma2_to64_rest();
        assert(64 * ((i - 1) as nat) + 64 == 64 * i);
    }
}

/// One limb of a left shift by `b` (`0 < b < 64`): the shifted limb and the
/// bits pushed out encode `x * 2^b + c` for a carry `c < 2^b`.
proof fn lemma_shl_limb(x: u64, c: u64, b: u64)
    requires
        0 < b < 64,
        c < pow2(b as nat),
    ensures
        ((x << b) | c) + (x >> ((64 - b) as u64)) * 0x1_0000_0000_0000_0000 == x * pow2(b as nat) + c,
        (x >> ((64 - b) as u64)) < pow2(b as nat),
{
    lemma_u64_pow2_no_overflow(b as nat);
    lemma_u64_shl_is_mul(1, b);
    let pb: u64 = 1u64 << b;
    assert(pb == pow2(b as nat));
    let y = (x << b) | c;
    let co = x >> ((64 - b) as u64);
    assert(y + co * 0x1_0000_0000_0000_0000 == x * pb + c && co < pb) by (bit_vector)
        requires
            0 < b < 64,
            c < pb,
            pb == 1u64 << b,
            y == (x << b) | c,
            co == x >> ((64 - b) as u64),
    ;
}

/// The mask of the low `b` bits.
pub open spec fn low_mask(b: u64) -> u64 {
    ((1u64 << b) - 1) as u64
}

/// One limb of a right shift by `b` (`0 < b < 64`): with `cin == m << (64 - b)`
/// for the low bits `m < 2^b` of the limb above, the new limb is
/// `(x >> b) + m * 2^(64 - b)`, and `x` splits into `(x >> b) * 2^b` and its
/// low bits `x & (2^b - 1)`, which travel down as `x << (64 - b)`.
pub(crate) proof fn lemma_shr_limb(x: u64, m: u64, b: u64)
    requires
        0 < b < 64,
        m < pow2(b as nat),
    ensures
        ((x >> b) | (m << ((64 - b) as u64))) == (x >> b) + m * pow2((64 - b) as nat),
        x == (x >> b) * pow2(b as nat) + (x & low_mask(b)),
        (x & low_mask(b)) < pow2(b as nat),
        (x << ((64 - b) as u64)) == (x & low_mask(b)) << ((64 - b) as u64),
        pow2(b as nat) * pow2((64 - b) as nat) == 0x1_0000_0000_0000_0000,
{
    let c = (64 - b) as u64;
    lemma_u64_pow2_no_overflow(b as nat);
    lemma_u64_pow2_no_overflow(c as nat);
    lemma_u64_shl_is_mul(1, b);
    lemma_pow2_adds(b as nat, c as nat);
    vstd::arithmetic::power2::lemma2_to64_rest();
    assert(b as nat + c as nat == 64);
    let pb: u64 = 1u64 << b;
    let lo = x & low_mask(b);
    let hi = x >> b;
    assert(m < pb ==> (hi | (m << c)) == hi + (m << c)) by (bit_vector)
        requires
            0 < b < 64,
            c == 64 - b,
            pb == 1u64 << b,
            hi == x >> b,
    ;
    assert(x == (hi << b) + lo) by (bit_vector)
        requires
            0 < b < 64,
            hi == x >> b,
            lo == x & low_mask(b),
    ;
    assert(lo < pb) by (bit_vector)
        requires
            0 < b < 64,
            pb == 1u64 << b,
            lo == x & low_mask(b),
    ;
    assert((x << c) == (lo << c)) by (bit_vector)
        requires
            0 < b < 64,
            c == 64 - b,
            lo == x & low_mask(b),
    ;
    // Turn the shifts into multiplications.
    lemma_u64_shr_is_div(x, b);
    lemma_pow2_pos(b as nat);
    vstd::arithmetic::div_mod::lemma_fundamental_div_mod(x as int, pow2(b as nat) as int);
    vstd::arithmetic::div_mod::lemma_mod_bound(x as int, pow2(b as nat) as int);
    assert(hi * pow2(b as nat) <= x) by (nonlinear_arith)
        requires
            hi == x as int / pow2(b as nat) as int,
            x == pow2(b as nat) * (x as int / pow2(b as nat) as int) + x as int % pow2(b as nat) as int,
            x as int % pow2(b as nat) as int >= 0,
    ;
    lemma_u64_shl_is_mul(hi, b);
    assert(m * pow2(c as nat) < 0x1_0000_0000_0000_0000) by (nonlinear_arith)
        requires
            m < pow2(b as nat),
            pow2(b as nat) * pow2(c as nat) == 0x1_0000_0000_0000_0000,
            pow2(c as nat) > 0,
    ;
    lemma_u64_shl_is_mul(m, c);
}

/// Leading-zero count bounds a non-zero limb: `2^(63 - z) <= x < 2^(64 - z)`.
proof fn lemma_leading_zeros_bounds(x: u64, z: u32)
    requires
        x != 0,
        z as int == vstd::std_specs::bits::u64_leading_zeros(x),
    ensures
        z < 64,
        pow2((63 - z) as nat) <= x,
        x < pow2((64 - z) as nat),
{
    vstd::std_specs::bits::axiom_u64_leading_zeros(x);
    let zz = z as u64;
    let sh = (63 - zz) as u64;
    lemma_u64_shr_is_div(x, sh);
    lemma_pow2_pos(sh as nat);
    assert((x >> sh) & 1u64 != 0u64 ==> (x >> sh) >= 1) by (bit_vector);
    vstd::arithmetic::div_mod::lemma_fundamental_div_mod(x as int, pow2(sh as nat) as int);
    vstd::arithmetic::div_mod::lemma_mod_bound(x as int, pow2(sh as nat) as int);
    let q = x as int / pow2(sh as nat) as int;
    assert(pow2(sh as nat) * q >= pow2(sh as nat)) by (nonlinear_arith)
        requires
            q >= 1,
            pow2(sh as nat) > 0,
    ;
    if zz >= 1 {
        let sh2 = (64 - zz) as u64;
        lemma_u64_shr_is_div(x, sh2);
        lemma_pow2_pos(sh2 as nat);
        vstd::arithmetic::div_mod::lemma_fundamental_div_mod(x as int, pow2(sh2 as nat) as int);
        vstd::arithmetic::div_mod::lemma_mod_bound(x as int, pow2(sh2 as nat) as int);
    } else {
        vstd::arithmetic::power2::lemma2_to64_rest();
    }
}

/// A fixed-size unsigned integer with `N` 64-bit limbs (little-endian).
#[derive(Clone, Copy, Debug)]
pub struct BigUint<const N: usize> {
    /// Limbs in little-endian order: `limbs[0]` is the least significant.
    pub limbs: [u64; N],
}

impl<const N: usize> BigUint<N> {
    /// The integer value.
    pub open spec fn value(&self) -> nat {
        limbs_value(self.limbs@)
    }

    /// `2^(64 * N)`, one more than the largest value.
    pub open spec fn bound() -> nat {
        limb_pow(N as nat)
    }

    /// Zero value.
    pub fn zero() -> (r: Self)
        ensures
            r.value() == 0,
            forall|i: int| 0 <= i < N ==> r.limbs[i] == 0,
    {
        let r = BigUint { limbs: [0u64; N] };
        proof {
            lemma_limbs_value_zeros(r.limbs@);
        }
        r
    }

    /// One value.
    pub fn one() -> (r: Self)
        requires
            N > 0,
        ensures
            r.value() == 1,
    {
        Self::from_u64(1)
    }

    /// Create from a single `u64`.
    pub fn from_u64(val: u64) -> (r: Self)
        requires
            N > 0,
        ensures
            r.value() == val,
    {
        let mut limbs = [0u64; N];
        let ghost zeros = limbs@;
        limbs[0] = val;
        proof {
            lemma_limbs_value_zeros(zeros);
            assert(limbs@ == zeros.update(0, val));
            lemma_limbs_value_update(zeros, 0, val);
            assert(limb_pow(0) == 1);
            assert(zeros[0] == 0);
            assert((val as nat) * limb_pow(0) == val) by (nonlinear_arith)
                requires
                    limb_pow(0) == 1,
            ;
        }
        BigUint { limbs }
    }

    /// Create from a single `u128`; the value must fit in the limbs.
    pub fn from_u128(val: u128) -> (r: Self)
        requires
            N > 1 || val < 0x1_0000_0000_0000_0000,
        ensures
            N > 0 ==> r.value() == val,
            N == 0 ==> r.value() == 0,
    {
        let mut limbs = [0u64; N];
        let ghost zeros = limbs@;
        proof {
            lemma_limbs_value_zeros(zeros);
        }
        let lo = val as u64;
        let hi = (val >> 64) as u64;
        proof {
            assert(lo + hi * 0x1_0000_0000_0000_0000 == val) by (bit_vector)
                requires
                    lo == val as u64,
                    hi == (val >> 64) as u64,
            ;
        }
        if N > 0 {
            limbs[0] = lo;
            proof {
                lemma_limbs_value_update(zeros, 0, lo);
                assert(zeros[0] == 0);
                assert((lo as nat) * limb_pow(0) == lo) by (nonlinear_arith)
                    requires
                        limb_pow(0) == 1,
                ;
                assert(limbs_value(limbs@) == lo);
            }
        }
        let ghost mid = limbs@;
        if N > 1 {
            limbs[1] = hi;
            proof {
                lemma_limbs_value_update(mid, 1, hi);
                lemma_limb_pow(0);
                assert(mid[1] == 0);
                assert(limbs_value(mid) == lo);
                assert(mid[1] * limb_pow(1) == 0) by (nonlinear_arith)
                    requires
                        mid[1] == 0,
                ;
                assert((hi as nat) * limb_pow(1) == hi * 0x1_0000_0000_0000_0000) by (nonlinear_arith)
                    requires
                        limb_pow(1) == 0x1_0000_0000_0000_0000,
                ;
            }
        } else if N == 1 {
            assert(hi == 0);
            assert(limbs_value(limbs@) == val);
        }
        BigUint { limbs }
    }

    /// Returns `true` if the value is zero.
    pub fn is_zero(&self) -> (b: bool)
        ensures
            b == (self.value() == 0),
    {
        let mut i: usize = 0;
        while i < N
            invariant
                i <= N,
                self.limbs@.len() == N,
                forall|k: int| 0 <= k < i ==> self.limbs[k] == 0,
            decreases N - i,
        {
            if self.limbs[i] != 0 {
                proof {
                    lemma_limbs_value_split(self.limbs@, i as int);
                    lemma_limbs_value_split(self.limbs@.skip(i as int), 1);
                    lemma_limbs_value_single(self.limbs@.skip(i as int).take(1));
                    lemma_limb_pow(i as nat);
                    let p = limb_pow(i as nat);
                    let rest = limbs_value(self.limbs@.skip(i as int));
                    assert(p * rest > 0) by (nonlinear_arith)
                        requires
                            p > 0,
                            rest > 0,
                    ;
                }
                return false;
            }
            i = i + 1;
        }
        proof {
            lemma_limbs_value_zeros(self.limbs@);
        }
        true
    }

    /// Add two big integers, returning (result, carry).
    pub fn add_with_carry(&self, other: &Self) -> (r: (Self, bool))
        ensures
            r.0.value() + (if r.1 { Self::bound() } else { 0 }) == self.value() + other.value(),
    {
        let mut result = Self::zero();
        let mut carry: u64 = 0;
        let mut i: usize = 0;
        while i < N
            invariant
                i <= N,
                carry <= 1,
                result.limbs@.len() == N,
                limbs_value(result.limbs@.take(i as int)) + carry * limb_pow(i as nat) == limbs_value(
                    self.limbs@.take(i as int),
                ) + limbs_value(other.limbs@.take(i as int)),
            decreases N - i,
        {
            let (sum, c) = add_limbs(self.limbs[i], other.limbs[i], carry);
            let ghost prev = result.limbs@;
            result.limbs[i] = sum;
            proof {
                let ii = i as int;
                assert(result.limbs@.take(ii) =~= prev.take(ii));
                lemma_limbs_value_take(result.limbs@, ii);
                lemma_limbs_value_take(self.limbs@, ii);
                lemma_limbs_value_take(other.limbs@, ii);
                lemma_limb_pow(i as nat);
                lemma_carry_step(limb_pow(i as nat), self.limbs[ii] as int, other.limbs[ii] as int,
                    carry as int, sum as nat, c as int);
            }
            carry = c;
            i = i + 1;
        }
        proof {
            assert(result.limbs@.take(N as int) =~= result.limbs@);
            assert(self.limbs@.take(N as int) =~= self.limbs@);
            assert(other.limbs@.take(N as int) =~= other.limbs@);
        }
        (result, carry > 0)
    }

    /// Add a single `u64`, returning (result, carry).
    pub fn add_small(&self, small: u64) -> (r: (Self, bool))
        requires
            N > 0,
        ensures
            r.0.value() + (if r.1 { Self::bound() } else { 0 }) == self.value() + small,
    {
        let mut result = *self;
        let (sum, carry0) = add_limbs(result.limbs[0], small, 0);
        let ghost prev = result.limbs@;
        result.limbs[0] = sum;
        proof {
            lemma_update_carry(prev, 0, sum, small as int, carry0 as int);
            assert(limb_pow(0) == 1);
            assert(small * limb_pow(0) == small) by (nonlinear_arith)
                requires
                    limb_pow(0) == 1,
            ;
        }
        let mut carry = carry0;
        let mut i: usize = 1;
        while i < N && carry != 0
            invariant
                1 <= i <= N,
                carry <= 1,
                result.limbs@.len() == N,
                limbs_value(result.limbs@) + carry * limb_pow(i as nat) == self.value() + small,
            decreases N - i,
        {
            let (sum, next) = add_limbs(result.limbs[i], carry, 0);
            let ghost prev = result.limbs@;
            result.limbs[i] = sum;
            proof {
                lemma_update_carry(prev, i as int, sum, carry as int, next as int);
            }
            carry = next;
            i = i + 1;
        }
        (result, carry != 0)
    }

    /// Subtract two big integers, returning (result, borrow).
    pub fn sub_with_borrow(&self, other: &Self) -> (r: (Self, bool))
        ensures
            r.1 == (self.value() < other.value()),
            r.0.value() == self.value() - other.value() + (if r.1 { Self::bound() } else { 0 }),
    {
        let mut result = Self::zero();
        let mut borrow: u64 = 0;
        let mut i: usize = 0;
        while i < N
            invariant
                i <= N,
                borrow <= 1,
                result.limbs@.len() == N,
                limbs_value(result.limbs@.take(i as int)) - borrow * limb_pow(i as nat) == limbs_value(
                    self.limbs@.take(i as int),
                ) - limbs_value(other.limbs@.take(i as int)),
            decreases N - i,
        {
            let (diff, b) = sub_limbs(self.limbs[i], other.limbs[i], borrow);
            let ghost prev = result.limbs@;
            result.limbs[i] = diff;
            proof {
                let ii = i as int;
                assert(result.limbs@.take(ii) =~= prev.take(ii));
                lemma_limbs_value_take(result.limbs@, ii);
                lemma_limbs_value_take(self.limbs@, ii);
                lemma_limbs_value_take(other.limbs@, ii);
                lemma_limb_pow(i as nat);
                let p = limb_pow(i as nat);
                let (x, y, c) = (self.limbs[ii] as int, other.limbs[ii] as int, borrow as int);
                assert(diff * p - b * (p * 0x1_0000_0000_0000_0000) == x * p - y * p - c * p)
                    by (nonlinear_arith)
                    requires
                        diff - b * 0x1_0000_0000_0000_0000 == x - y - c,
                ;
            }
            borrow = b;
            i = i + 1;
        }
        proof {
            assert(result.limbs@.take(N as int) =~= result.limbs@);
            assert(self.limbs@.take(N as int) =~= self.limbs@);
            assert(other.limbs@.take(N as int) =~= other.limbs@);
            lemma_limbs_value_bound(result.limbs@);
            lemma_limbs_value_bound(self.limbs@);
            lemma_limbs_value_bound(other.limbs@);
        }
        (result, borrow > 0)
    }

    /// Subtract a single `u64`, returning (result, borrow).
    pub fn sub_small(&self, small: u64) -> (r: (Self, bool))
        requires
            N > 0,
        ensures
            r.1 == (self.value() < small),
            r.0.value() == self.value() - small + (if r.1 { Self::bound() } else { 0 }),
    {
        let mut result = *self;
        let (diff, borrow0) = sub_limbs(result.limbs[0], small, 0);
        let ghost prev = result.limbs@;
        result.limbs[0] = diff;
        proof {
            lemma_update_borrow(prev, 0, diff, small as int, borrow0 as int);
            assert(limb_pow(0) == 1);
            assert(small * limb_pow(0) == small) by (nonlinear_arith)
                requires
                    limb_pow(0) == 1,
            ;
        }
        let mut borrow = borrow0;
        let mut i: usize = 1;
        while i < N && borrow != 0
            invariant
                1 <= i <= N,
                borrow <= 1,
                result.limbs@.len() == N,
                limbs_value(result.limbs@) - borrow * limb_pow(i as nat) == self.value() - small,
            decreases N - i,
        {
            let (diff, next) = sub_limbs(result.limbs[i], borrow, 0);
            let ghost prev = result.limbs@;
            result.limbs[i] = diff;
            proof {
                lemma_update_borrow(prev, i as int, diff, borrow as int, next as int);
            }
            borrow = next;
            i = i + 1;
        }
        proof {
            lemma_limbs_value_bound(result.limbs@);
            lemma_limbs_value_bound(self.limbs@);
            if borrow != 0 {
                lemma_limb_pow_mono(1, i as nat);
                lemma_limb_pow(0);
            }
        }
        (result, borrow != 0)
    }

    /// Multiply by a single `u64` limb, returning (result, carry_limb).
    pub fn mul_by_limb(&self, limb: u64) -> (r: (Self, u64))
        ensures
            r.0.value() + r.1 * Self::bound() == self.value() * limb,
    {
        let mut result = Self::zero();
        let mut carry: u64 = 0;
        let mut i: usize = 0;
        proof {
            assert(limbs_value(result.limbs@.take(0)) == 0);
            assert(limbs_value(self.limbs@.take(0)) == 0);
            assert(0 * limb == 0);
        }
        while i < N
            invariant
                i <= N,
                result.limbs@.len() == N,
                limbs_value(result.limbs@.take(i as int)) + carry * limb_pow(i as nat) == limbs_value(
                    self.limbs@.take(i as int),
                ) * limb,
            decreases N - i,
        {
            let (lo, hi) = mul_add_limbs(self.limbs[i], limb, carry, 0);
            let ghost prev = result.limbs@;
            result.limbs[i] = lo;
            proof {
                let ii = i as int;
                assert(result.limbs@.take(ii) =~= prev.take(ii));
                lemma_limbs_value_take(result.limbs@, ii);
                lemma_limbs_value_take(self.limbs@, ii);
                lemma_limb_pow(i as nat);
                let p = limb_pow(i as nat);
                let x = self.limbs[ii] as int;
                let va = limbs_value(self.limbs@.take(ii));
                assert(lo * p + hi * (p * 0x1_0000_0000_0000_0000) == (va + x * p) * limb - va * limb
                    + carry * p) by (nonlinear_arith)
                    requires
                        lo + hi * 0x1_0000_0000_0000_0000 == x * limb + carry,
                ;
            }
            carry = hi;
            i = i + 1;
        }
        proof {
            assert(result.limbs@.take(N as int) =~= result.limbs@);
            assert(self.limbs@.take(N as int) =~= self.limbs@);
        }
        (result, carry)
    }

    /// Divide by a single non-zero `u64` limb, returning (quotient, remainder).
    pub fn div_rem_small(&self, divisor: u64) -> (r: (Self, u64))
        requires
            divisor != 0,
        ensures
            r.0.value() * divisor + r.1 == self.value(),
            r.1 < divisor,
    {
        let mut quotient = Self::zero();
        let mut remainder: u64 = 0;
        let mut i: usize = N;
        proof {
            assert(self.limbs@.skip(N as int).len() == 0);
            assert(quotient.limbs@.skip(N as int).len() == 0);
            assert(limbs_value(self.limbs@.skip(N as int)) == 0);
            assert(limbs_value(quotient.limbs@.skip(N as int)) == 0);
            assert(0 * divisor == 0);
        }
        while i > 0
            invariant
                i <= N,
                divisor != 0,
                remainder < divisor,
                quotient.limbs@.len() == N,
                limbs_value(self.limbs@.skip(i as int)) == limbs_value(quotient.limbs@.skip(i as int))
                    * divisor + remainder,
            decreases i,
        {
            i = i - 1;
            let hi: u128 = (remainder as u128) * 0x1_0000_0000_0000_0000;
            let wide: u128 = hi + self.limbs[i] as u128;
            let q = wide / divisor as u128;
            let rem = wide % divisor as u128;
            proof {
                assert(wide < (divisor as int) * 0x1_0000_0000_0000_0000) by (nonlinear_arith)
                    requires
                        wide == remainder * 0x1_0000_0000_0000_0000 + self.limbs[i as int],
                        remainder + 1 <= divisor,
                        self.limbs[i as int] < 0x1_0000_0000_0000_0000,
                ;
                assert(q < 0x1_0000_0000_0000_0000) by (nonlinear_arith)
                    requires
                        q == wide / (divisor as u128),
                        wide < (divisor as int) * 0x1_0000_0000_0000_0000,
                        divisor > 0,
                ;
                lemma_fundamental_div_mod(wide as int, divisor as int);
                lemma_mod_bound(wide as int, divisor as int);
            }
            let ghost prev = quotient.limbs@;
            quotient.limbs[i] = q as u64;
            proof {
                let ii = i as int;
                assert(quotient.limbs@.skip(ii + 1) =~= prev.skip(ii + 1));
                lemma_limbs_value_skip(self.limbs@, ii);
                lemma_limbs_value_skip(quotient.limbs@, ii);
                let vq = limbs_value(prev.skip(ii + 1));
                let d = divisor as int;
                assert(self.limbs[ii] + 0x1_0000_0000_0000_0000 * (vq * d + remainder) == (q
                    + 0x1_0000_0000_0000_0000 * vq) * d + rem) by (nonlinear_arith)
                    requires
                        wide == remainder * 0x1_0000_0000_0000_0000 + self.limbs[ii],
                        wide == d * q + rem,
                ;
            }
            remainder = rem as u64;
        }
        proof {
            assert(self.limbs@.skip(0) =~= self.limbs@);
            assert(quotient.limbs@.skip(0) =~= quotient.limbs@);
        }
        (quotient, remainder)
    }

    /// Subtract `other` if `self >= other`, otherwise return `self` unchanged.
    pub fn sub_if_ge(&self, other: &Self) -> (r: Self)
        ensures
            r.value() == (if self.value() >= other.value() {
                self.value() - other.value()
            } else {
                self.value() as int
            }),
    {
        let (diff, borrow) = self.sub_with_borrow(other);
        if borrow {
            *self
        } else {
            diff
        }
    }

    /// Return the value as `u64` if it fits exactly.
    pub fn try_to_u64(&self) -> (r: Option<u64>)
        requires
            N > 0,
        ensures
            r == (if self.value() < 0x1_0000_0000_0000_0000 {
                Some(self.value() as u64)
            } else {
                None
            }),
    {
        let mut i: usize = 1;
        while i < N
            invariant
                1 <= i <= N,
                self.limbs@.len() == N,
                forall|k: int| 1 <= k < i ==> self.limbs[k] == 0,
            decreases N - i,
        {
            if self.limbs[i] != 0 {
                proof {
                    self.lemma_high_limb_nonzero(i as int, 1);
                    lemma_limb_pow(0);
                }
                return None;
            }
            i = i + 1;
        }
        proof {
            self.lemma_high_limbs_zero(1);
        }
        Some(self.limbs[0])
    }

    /// Return the value as `u128` if it fits exactly.
    pub fn try_to_u128(&self) -> (r: Option<u128>)
        ensures
            r == (if self.value() < 0x1_0000_0000_0000_0000_0000_0000_0000_0000 {
                Some(self.value() as u128)
            } else {
                None
            }),
    {
        let mut i: usize = 2;
        while i < N
            invariant
                2 <= i,
                i <= N || N < 2,
                self.limbs@.len() == N,
                forall|k: int| 2 <= k < i && k < N ==> self.limbs[k] == 0,
            decreases N - i,
        {
            if self.limbs[i] != 0 {
                proof {
                    self.lemma_high_limb_nonzero(i as int, 2);
                    lemma_limb_pow(0);
                    lemma_limb_pow(1);
                }
                return None;
            }
            i = i + 1;
        }
        let lo: u64 = if N > 0 {
            self.limbs[0]
        } else {
            0
        };
        let hi: u64 = if N > 1 {
            self.limbs[1]
        } else {
            0
        };
        proof {
            if N >= 2 {
                self.lemma_high_limbs_zero(2);
            } else if N == 1 {
                self.lemma_high_limbs_zero(1);
            } else {
                assert(self.limbs@.len() == 0);
            }
            assert((lo as u128) | ((hi as u128) << 64) == lo + hi * 0x1_0000_0000_0000_0000)
                by (bit_vector);
        }
        Some((lo as u128) | ((hi as u128) << 64))
    }

    /// Truncate or zero-extend into a fixed-width integer of `M` limbs.
    pub fn zero_extend<const M: usize>(&self) -> (r: BigUint<M>)
        ensures
            r.value() == self.value() % BigUint::<M>::bound(),
            M >= N ==> r.value() == self.value(),
    {
        let mut limbs = [0u64; M];
        let copy_len = if N < M {
            N
        } else {
            M
        };
        let mut i: usize = 0;
        while i < copy_len
            invariant
                i <= copy_len,
                copy_len <= N,
                copy_len <= M,
                copy_len == N || copy_len == M,
                limbs@.len() == M,
                forall|k: int| 0 <= k < i ==> limbs[k] == self.limbs[k],
                forall|k: int| i <= k < M ==> limbs[k] == 0,
            decreases copy_len - i,
        {
            limbs[i] = self.limbs[i];
            i = i + 1;
        }
        let r = BigUint { limbs };
        proof {
            let c = copy_len as int;
            assert(r.limbs@.take(c) =~= self.limbs@.take(c));
            lemma_limbs_value_split(r.limbs@, c);
            lemma_limbs_value_split(self.limbs@, c);
            lemma_limbs_value_zeros(r.limbs@.skip(c));
            lemma_limbs_value_bound(self.limbs@.take(c));
            lemma_limbs_value_bound(self.limbs@);
            let low = limbs_value(self.limbs@.take(c));
            let high = limbs_value(self.limbs@.skip(c));
            let p = limb_pow(c as nat);
            lemma_limb_pow(c as nat);
            assert(p * 0 == 0) by (nonlinear_arith);
            if copy_len == M {
                assert(self.value() == low + p * high);
                vstd::arithmetic::div_mod::lemma_mod_multiples_vanish(high as int, low as int, p as int);
                lemma_small_mod(low, p);
            } else {
                assert(self.limbs@.skip(c).len() == 0);
                assert(high == 0);
                lemma_limb_pow_mono(N as nat, M as nat);
                lemma_small_mod(self.value(), limb_pow(M as nat));
            }
        }
        r
    }


    /// Compare two big integers.
    pub fn compare(&self, other: &Self) -> (r: Ordering)
        ensures
            r == order_of(self.value(), other.value()),
    {
        let mut i: usize = N;
        proof {
            lemma_agree_end(self.limbs@, other.limbs@, N);
        }
        while i > 0
            invariant
                i <= N,
                self.limbs@.len() == N,
                other.limbs@.len() == N,
                agree_from(self.limbs@, other.limbs@, i),
            decreases i,
        {
            let j = i;
            i = i - 1;
            let a = self.limbs[i];
            let b = other.limbs[i];
            if a < b {
                proof {
                    lemma_order_at(self.limbs@, other.limbs@, i, j);
                }
                return Ordering::Less;
            }
            if a > b {
                proof {
                    lemma_order_at(self.limbs@, other.limbs@, i, j);
                }
                return Ordering::Greater;
            }
            proof {
                lemma_agree_step(self.limbs@, other.limbs@, i, j);
            }
        }
        proof {
            lemma_agree_all(self.limbs@, other.limbs@);
        }
        Ordering::Equal
    }

    /// The three-way comparison of the values (the order of `<` on `BigUint`).
    pub fn cmp(&self, other: &Self) -> (r: Ordering)
        ensures
            r == order_of(self.value(), other.value()),
    {
        self.compare(other)
    }

    /// Maximum representable value.
    pub fn max_value() -> (r: Self)
        ensures
            r.value() == Self::bound() - 1,
    {
        let r = BigUint { limbs: [0xffff_ffff_ffff_ffffu64; N] };
        proof {
            lemma_limbs_value_all_ones(r.limbs@);
        }
        r
    }


    /// Returns the number of significant bits.
    pub fn bits(&self) -> (r: u32)
        requires
            N < 0x400_0000,
        ensures
            self.value() < pow2(r as nat),
            r > 0 ==> pow2((r - 1) as nat) <= self.value(),
    {
        let mut i: usize = N;
        while i > 0
            invariant
                i <= N,
                N < 0x400_0000,
                self.limbs@.len() == N,
                forall|k: int| i <= k < N ==> self.limbs[k] == 0,
            decreases i,
        {
            i = i - 1;
            let limb = self.limbs[i];
            if limb != 0 {
                let z = limb.leading_zeros();
                let r = (i as u32) * 64 + (64 - z);
                proof {
                    self.lemma_top_limb_bits(i as int, z);
                }
                return r;
            }
        }
        proof {
            self.lemma_high_limbs_zero_all();
            lemma2_to64();
        }
        0
    }

    /// All limbs zero means value zero.
    proof fn lemma_high_limbs_zero_all(&self)
        requires
            forall|k: int| 0 <= k < N ==> self.limbs[k] == 0,
        ensures
            self.value() == 0,
    {
        lemma_limbs_value_zeros(self.limbs@);
    }

    /// With limb `i` the highest non-zero one, holding `z` leading zeros, the value
    /// has exactly `64 i + 64 - z` significant bits.
    proof fn lemma_top_limb_bits(&self, i: int, z: u32)
        requires
            0 <= i < N,
            self.limbs[i] != 0,
            z as int == vstd::std_specs::bits::u64_leading_zeros(self.limbs[i]),
            forall|k: int| i < k < N ==> self.limbs[k] == 0,
        ensures
            z < 64,
            self.value() < pow2((64 * i + 64 - z) as nat),
            pow2((64 * i + 63 - z) as nat) <= self.value(),
    {
        let x = self.limbs[i];
        lemma_leading_zeros_bounds(x, z);
        lemma_limbs_value_split(self.limbs@, i);
        lemma_limbs_value_skip(self.limbs@, i);
        lemma_limbs_value_zeros(self.limbs@.skip(i + 1));
        lemma_limbs_value_bound(self.limbs@.take(i));
        lemma_limb_pow_pow2(i as nat);
        lemma_pow2_adds((64 * i) as nat, (63 - z) as nat);
        lemma_pow2_adds((64 * i) as nat, (64 - z) as nat);
        let p = limb_pow(i as nat);
        let low = limbs_value(self.limbs@.take(i));
        assert(0x1_0000_0000_0000_0000 * 0 == 0);
        assert(self.value() == low + p * x);
        let lo = pow2((63 - z) as nat);
        let hi = pow2((64 - z) as nat);
        assert(p * lo <= low + p * x) by (nonlinear_arith)
            requires
                lo <= x,
                low >= 0,
                p >= 0,
        ;
        assert(low + p * x < p * hi) by (nonlinear_arith)
            requires
                low < p,
                x + 1 <= hi,
                p > 0,
        ;
    }

    /// Shift left by a bit count smaller than 64, returning the shifted value and carry limb.
    pub fn shl_bits(&self, bits: u32) -> (r: (Self, u64))
        requires
            bits < 64,
        ensures
            r.0.value() + r.1 * Self::bound() == self.value() * pow2(bits as nat),
    {
        if bits == 0 {
            proof {
                lemma2_to64();
                assert(self.value() * 1 == self.value());
                assert(0 * Self::bound() == 0);
            }
            return (*self, 0);
        }
        let mut result = Self::zero();
        let mut carry: u64 = 0;
        let mut i: usize = 0;
        let ghost pb = pow2(bits as nat);
        proof {
            lemma_pow2_pos(bits as nat);
            assert(limbs_value(result.limbs@.take(0)) == 0);
            assert(limbs_value(self.limbs@.take(0)) == 0);
            assert(0 * pb == 0);
        }
        while i < N
            invariant
                i <= N,
                0 < bits < 64,
                pb == pow2(bits as nat),
                carry < pb,
                result.limbs@.len() == N,
                limbs_value(result.limbs@.take(i as int)) + carry * limb_pow(i as nat) == limbs_value(
                    self.limbs@.take(i as int),
                ) * pb,
            decreases N - i,
        {
            let limb = self.limbs[i];
            let shifted = (limb << bits) | carry;
            let next = limb >> (64 - bits);
            proof {
                lemma_shl_limb(limb, carry, bits as u64);
            }
            let ghost prev = result.limbs@;
            result.limbs[i] = shifted;
            proof {
                let ii = i as int;
                assert(result.limbs@.take(ii) =~= prev.take(ii));
                lemma_limbs_value_take(result.limbs@, ii);
                lemma_limbs_value_take(self.limbs@, ii);
                lemma_limb_pow(i as nat);
                let p = limb_pow(i as nat);
                let va = limbs_value(self.limbs@.take(ii));
                assert(shifted * p + next * (p * 0x1_0000_0000_0000_0000) == (va + limb * p) * pb - va
                    * pb + carry * p) by (nonlinear_arith)
                    requires
                        shifted + next * 0x1_0000_0000_0000_0000 == limb * pb + carry,
                ;
            }
            carry = next;
            i = i + 1;
        }
        proof {
            assert(result.limbs@.take(N as int) =~= result.limbs@);
            assert(self.limbs@.take(N as int) =~= self.limbs@);
        }
        (result, carry)
    }

    /// Shift right by a bit count smaller than 64.
    pub fn shr_bits(&self, bits: u32) -> (r: Self)
        requires
            bits < 64,
        ensures
            r.value() == self.value() / pow2(bits as nat),
    {
        if bits == 0 {
            proof {
                lemma2_to64();
                assert(self.value() / 1 == self.value()) by (nonlinear_arith);
            }
            return *self;
        }
        let mut result = Self::zero();
        let mut carry: u64 = 0;
        let ghost mut m: u64 = 0;
        let ghost pb = pow2(bits as nat);
        let mut i: usize = N;
        proof {
            lemma_pow2_pos(bits as nat);
            assert(self.limbs@.skip(N as int).len() == 0);
            assert(result.limbs@.skip(N as int).len() == 0);
            assert(limbs_value(self.limbs@.skip(N as int)) == 0);
            assert(limbs_value(result.limbs@.skip(N as int)) == 0);
            assert(0 * pb == 0);
            assert((0u64 << ((64 - bits) as u64)) == 0) by (bit_vector);
        }
        while i > 0
            invariant
                i <= N,
                0 < bits < 64,
                pb == pow2(bits as nat),
                m < pb,
                carry == m << ((64 - bits) as u64),
                result.limbs@.len() == N,
                limbs_value(self.limbs@.skip(i as int)) == limbs_value(result.limbs@.skip(i as int)) * pb
                    + m,
            decreases i,
        {
            i = i - 1;
            let limb = self.limbs[i];
            let shifted = (limb >> bits) | carry;
            let next = limb << (64 - bits);
            proof {
                lemma_shr_limb(limb, m, bits as u64);
            }
            let ghost prev = result.limbs@;
            result.limbs[i] = shifted;
            proof {
                let ii = i as int;
                assert(result.limbs@.skip(ii + 1) =~= prev.skip(ii + 1));
                lemma_limbs_value_skip(self.limbs@, ii);
                lemma_limbs_value_skip(result.limbs@, ii);
                let vr = limbs_value(prev.skip(ii + 1));
                let pc = pow2((64 - bits) as nat);
                let hi = (limb >> bits) as int;
                let lo = (limb & low_mask(bits as u64)) as int;
                assert(limb + 0x1_0000_0000_0000_0000 * (vr * pb + m) == (hi + m * pc
                    + 0x1_0000_0000_0000_0000 * vr) * pb + lo) by (nonlinear_arith)
                    requires
                        limb == hi * pb + lo,
                        pb * pc == 0x1_0000_0000_0000_0000,
                ;
                m = limb & low_mask(bits as u64);
            }
            carry = next;
        }
        proof {
            assert(self.limbs@.skip(0) =~= self.limbs@);
            assert(result.limbs@.skip(0) =~= result.limbs@);
            vstd::arithmetic::div_mod::lemma_fundamental_div_mod_converse(
                self.value() as int,
                pb as int,
                result.value() as int,
                m as int,
            );
        }
        result
    }


    /// The value of the double-width integer with low half `lo` and high half `hi`.
    pub open spec fn wide_value(lo: Self, hi: Self) -> nat {
        limbs_value(lo.limbs@ + hi.limbs@)
    }

    /// Add `x` at limb position `pos` of the double-width integer `(lo, hi)`,
    /// returning the carry out of that limb.
    fn add_into_wide(lo: &mut Self, hi: &mut Self, pos: usize, x: u128) -> (c: u128)
        requires
            pos < 2 * N,
            x <= 0x1_0000_0000_0000_0000,
        ensures
            c <= 1,
            Self::wide_value(*final(lo), *final(hi)) + c * limb_pow((pos + 1) as nat)
                == Self::wide_value(*old(lo), *old(hi)) + x * limb_pow(pos as nat),
    {
        let ghost before = lo.limbs@ + hi.limbs@;
        if pos < N {
            let sum: u128 = lo.limbs[pos] as u128 + x;
            let limb = sum as u64;
            let c = sum >> 64;
            proof {
                assert(limb + c * 0x1_0000_0000_0000_0000 == sum && c <= 1) by (bit_vector)
                    requires
                        limb == sum as u64,
                        c == sum >> 64,
                        sum < 0x2_0000_0000_0000_0000,
                ;
            }
            let ghost old_lo = lo.limbs@;
            lo.limbs[pos] = limb;
            proof {
                assert(lo.limbs@ + hi.limbs@ =~= before.update(pos as int, limb));
                lemma_update_carry(before, pos as int, limb, x as int, c as int);
            }
            c
        } else {
            let hp = pos - N;
            let sum: u128 = hi.limbs[hp] as u128 + x;
            let limb = sum as u64;
            let c = sum >> 64;
            proof {
                assert(limb + c * 0x1_0000_0000_0000_0000 == sum && c <= 1) by (bit_vector)
                    requires
                        limb == sum as u64,
                        c == sum >> 64,
                        sum < 0x2_0000_0000_0000_0000,
                ;
            }
            hi.limbs[hp] = limb;
            proof {
                assert(lo.limbs@ + hi.limbs@ =~= before.update(pos as int, limb));
                lemma_update_carry(before, pos as int, limb, x as int, c as int);
            }
            c
        }
    }

    /// Full multiplication of two N-limb integers.
    /// Returns the lower N limbs and upper N limbs separately.
    pub fn widening_mul(&self, other: &Self) -> (r: (Self, Self))
        requires
            2 * N <= usize::MAX,
        ensures
            r.0.value() + r.1.value() * Self::bound() == self.value() * other.value(),
    {
        let mut lo = Self::zero();
        let mut hi = Self::zero();
        let ghost vb = other.value();
        proof {
            lemma_limbs_value_zeros(lo.limbs@ + hi.limbs@);
            assert(limbs_value(self.limbs@.take(0)) == 0);
            assert(0 * vb == 0);
        }
        let mut i: usize = 0;
        while i < N
            invariant
                i <= N,
                2 * N <= usize::MAX,
                vb == other.value(),
                lo.limbs@.len() == N,
                hi.limbs@.len() == N,
                Self::wide_value(lo, hi) == limbs_value(self.limbs@.take(i as int)) * vb,
            decreases N - i,
        {
            let a = self.limbs[i];
            let mut carry: u128 = 0;
            let mut j: usize = 0;
            let ghost base = limbs_value(self.limbs@.take(i as int)) * vb;
            proof {
                assert(limbs_value(other.limbs@.take(0)) == 0);
                assert(a * 0 * limb_pow(i as nat) == 0) by (nonlinear_arith);
                assert(0 * limb_pow(i as nat) == 0) by (nonlinear_arith);
            }
            while j < N
                invariant
                    i < N,
                    j <= N,
                    2 * N <= usize::MAX,
                    a == self.limbs[i as int],
                    lo.limbs@.len() == N,
                    hi.limbs@.len() == N,
                    carry <= 0x1_0000_0000_0000_0000,
                    Self::wide_value(lo, hi) + carry * limb_pow((i + j) as nat) == base + a
                        * limbs_value(other.limbs@.take(j as int)) * limb_pow(i as nat),
                decreases N - j,
            {
                let bj = other.limbs[j];
                let pos = i + j;
                proof {
                    assert(a * bj <= 0xffff_ffff_ffff_fffe_0000_0000_0000_0001) by (nonlinear_arith)
                        requires
                            a <= 0xffff_ffff_ffff_ffff,
                            bj <= 0xffff_ffff_ffff_ffff,
                    ;
                }
                let prod: u128 = (a as u128) * (bj as u128) + carry;
                let low: u128 = prod & 0xFFFF_FFFF_FFFF_FFFF;
                let high: u128 = prod >> 64;
                proof {
                    assert(low + high * 0x1_0000_0000_0000_0000 == prod && low
                        < 0x1_0000_0000_0000_0000) by (bit_vector)
                        requires
                            low == prod & 0xFFFF_FFFF_FFFF_FFFF,
                            high == prod >> 64,
                    ;
                    assert(high < 0x1_0000_0000_0000_0000) by (nonlinear_arith)
                        requires
                            low + high * 0x1_0000_0000_0000_0000 == prod,
                            prod <= 0xffff_ffff_ffff_fffe_0000_0000_0000_0001 + 0x1_0000_0000_0000_0000,
                            low >= 0,
                    ;
                }
                let c = Self::add_into_wide(&mut lo, &mut hi, pos, low);
                let ghost carry0 = carry;
                carry = high + c;
                proof {
                    let jj = j as int;
                    lemma_limbs_value_take(other.limbs@, jj);
                    lemma_limb_pow(pos as nat);
                    lemma_limb_pow_add(i as nat, j as nat);
                    let pp = limb_pow(pos as nat);
                    let pi = limb_pow(i as nat);
                    let pj = limb_pow(j as nat);
                    let vbj = limbs_value(other.limbs@.take(jj));
                    assert(high * (pp * 0x1_0000_0000_0000_0000) + low * pp == prod * pp)
                        by (nonlinear_arith)
                        requires
                            low + high * 0x1_0000_0000_0000_0000 == prod,
                    ;
                    assert(a * (vbj + bj * pj) * pi == a * vbj * pi + a * bj * pp) by (nonlinear_arith)
                        requires
                            pp == pi * pj,
                    ;
                    assert((high + c) * (pp * 0x1_0000_0000_0000_0000) == high * (pp
                        * 0x1_0000_0000_0000_0000) + c * (pp * 0x1_0000_0000_0000_0000))
                        by (nonlinear_arith);
                    assert(prod * pp == a * bj * pp + carry0 * pp) by (nonlinear_arith)
                        requires
                            prod == a * bj + carry0,
                    ;
                }
                j = j + 1;
            }
            // Propagate the final carry into the high half.
            let mut pos = i + N;
            proof {
                assert(other.limbs@.take(N as int) =~= other.limbs@);
                lemma_limbs_value_take(self.limbs@, i as int);
                lemma_limb_pow_mono((i + 1) as nat, (i + 1) as nat);
                let pi = limb_pow(i as nat);
                let va = limbs_value(self.limbs@.take(i as int));
                assert(va * vb + a * vb * pi == (va + a * pi) * vb) by (nonlinear_arith);
            }
            while carry > 0 && pos < 2 * N
                invariant
                    i < N,
                    i + N <= pos <= 2 * N,
                    2 * N <= usize::MAX,
                    lo.limbs@.len() == N,
                    hi.limbs@.len() == N,
                    carry <= 0x1_0000_0000_0000_0000,
                    Self::wide_value(lo, hi) + carry * limb_pow(pos as nat) == limbs_value(
                        self.limbs@.take(i + 1),
                    ) * vb,
                decreases 2 * N - pos,
            {
                let c = Self::add_into_wide(&mut lo, &mut hi, pos, carry);
                carry = c;
                pos = pos + 1;
            }
            proof {
                if carry > 0 {
                    // pos == 2N: the total would exceed the double width.
                    lemma_limbs_value_bound(self.limbs@.take(i + 1));
                    lemma_limbs_value_bound(other.limbs@);
                    lemma_limb_pow_add((i + 1) as nat, N as nat);
                    lemma_limb_pow_mono((i + 1 + N) as nat, (2 * N) as nat);
                    let pa = limb_pow((i + 1) as nat);
                    let pn = limb_pow(N as nat);
                    let va = limbs_value(self.limbs@.take(i + 1));
                    assert(va * vb < pa * pn) by (nonlinear_arith)
                        requires
                            va < pa,
                            vb < pn,
                            va >= 0,
                            vb >= 0,
                    ;
                    assert(carry * limb_pow(pos as nat) >= limb_pow(pos as nat)) by (nonlinear_arith)
                        requires
                            carry >= 1,
                            limb_pow(pos as nat) >= 0,
                    ;
                }
            }
            i = i + 1;
        }
        proof {
            assert(self.limbs@.take(N as int) =~= self.limbs@);
            lemma_limbs_value_concat(lo.limbs@, hi.limbs@);
            assert(limb_pow(N as nat) * hi.value() == hi.value() * limb_pow(N as nat))
                by (nonlinear_arith);
        }
        (lo, hi)
    }

    /// If a limb at index `k >= from` is non-zero, the value is at least `limb_pow(from)`.
    proof fn lemma_high_limb_nonzero(&self, k: int, from: int)
        requires
            0 < from <= k < N,
            self.limbs[k] != 0,
        ensures
            self.value() >= limb_pow(from as nat),
    {
        lemma_limbs_value_split(self.limbs@, k);
        lemma_limbs_value_skip(self.limbs@, k);
        lemma_limb_pow(k as nat);
        lemma_limb_pow_mono(from as nat, k as nat);
        let p = limb_pow(k as nat);
        let rest = limbs_value(self.limbs@.skip(k + 1));
        assert(p * (self.limbs[k] + 0x1_0000_0000_0000_0000 * rest) >= p) by (nonlinear_arith)
            requires
                self.limbs[k] >= 1,
                rest >= 0,
                p > 0,
        ;
    }

    /// If every limb at index `>= from` is zero, the value is that of the low limbs.
    proof fn lemma_high_limbs_zero(&self, from: int)
        requires
            0 < from <= N,
            forall|k: int| from <= k < N ==> self.limbs[k] == 0,
        ensures
            self.value() == limbs_value(self.limbs@.take(from)),
            self.value() < limb_pow(from as nat),
            from == 1 ==> self.value() == self.limbs[0],
            from == 2 ==> self.value() == self.limbs[0] + self.limbs[1] * 0x1_0000_0000_0000_0000,
    {
        lemma_limbs_value_split(self.limbs@, from);
        lemma_limbs_value_zeros(self.limbs@.skip(from));
        lemma_limbs_value_bound(self.limbs@.take(from));
        assert(limb_pow(from as nat) * 0 == 0);
        if from == 1 {
            lemma_limbs_value_single(self.limbs@.take(1));
        }
        if from == 2 {
            lemma_limbs_value_take(self.limbs@, 1);
            lemma_limbs_value_single(self.limbs@.take(1));
            assert(self.limbs@.take(2).take(1) =~= self.limbs@.take(1));
            lemma_limbs_value_take(self.limbs@.take(2), 1);
            lemma_limb_pow(0);
            assert(self.limbs[1] * limb_pow(1) == self.limbs[1] * 0x1_0000_0000_0000_0000);
        }
    }
}

impl<const N: usize> PartialEq for BigUint<N> {
    fn eq(&self, other: &Self) -> (r: bool) {
        let mut i: usize = 0;
        while i < N
            invariant
                i <= N,
                self.limbs@.len() == N,
                other.limbs@.len() == N,
                forall|k: int| 0 <= k < i ==> self.limbs[k] == other.limbs[k],
            decreases N - i,
        {
            if self.limbs[i] != other.limbs[i] {
                return false;
            }
            i = i + 1;
        }
        proof {
            assert(self.limbs@ =~= other.limbs@);
        }
        true
    }
}

impl<const N: usize> PartialEqSpecImpl for BigUint<N> {
    open spec fn obeys_eq_spec() -> bool {
        true
    }

    open spec fn eq_spec(&self, other: &Self) -> bool {
        self.limbs@ == other.limbs@
    }
}

impl<const N: usize> Eq for BigUint<N> {

}

impl<const N: usize> PartialOrd for BigUint<N> {
    fn partial_cmp(&self, other: &Self) -> (r: Option<Ordering>) {
        Some(self.compare(other))
    }
}

impl<const N: usize> PartialOrdSpecImpl for BigUint<N> {
    open spec fn obeys_partial_cmp_spec() -> bool {
        true
    }

    open spec fn partial_cmp_spec(&self, other: &Self) -> Option<Ordering> {
        Some(order_of(self.value(), other.value()))
    }
}

} // verus!
