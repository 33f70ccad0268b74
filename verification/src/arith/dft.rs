//! Finite sums over a ring, the discrete Fourier transform they define, and the
//! two facts the NTT rests on: the radix-2 plan computes the DFT, and the DFT turns
//! cyclic convolution into pointwise multiplication.
use crate::arith::ntt::{
    NttPlan, bitrev_seq, fwd_stage, fwd_upto, lemma_add_zero_left, lemma_mul_neg, lemma_pow_one,
    lemma_rev_bound, log2, powers_seq, rev,
};
use crate::arith::ring::{Ring, lemma_pow_adds, lemma_pow_wf, pow_spec, seq_wf};
use vstd::arithmetic::power2::{lemma_pow2_adds, lemma_pow2_pos, pow2};
use vstd::prelude::*;

verus! {

/// `f(0) + f(1) + ... + f(n - 1)`, accumulated from index 0 upward.
pub open spec fn rsum<R: Ring>(f: spec_fn(int) -> R, n: nat) -> R
    decreases n,
{
    if n == 0 {
        R::zero_spec()
    } else {
        R::add_spec(rsum(f, (n - 1) as nat), f(n - 1))
    }
}

/// `f` gives valid elements on `0..n`.
pub open spec fn fn_wf<R: Ring>(f: spec_fn(int) -> R, n: nat) -> bool {
    forall|i: int| 0 <= i < n ==> (#[trigger] f(i)).wf()
}

/// A sum of valid elements is valid.
pub proof fn lemma_rsum_wf<R: Ring>(f: spec_fn(int) -> R, n: nat)
    requires
        R::params_ok(),
        fn_wf(f, n),
    ensures
        rsum(f, n).wf(),
    decreases n,
{
    R::lemma_identities_wf();
    if n > 0 {
        lemma_rsum_wf(f, (n - 1) as nat);
        assert(f(n - 1).wf());
        R::lemma_closed(rsum(f, (n - 1) as nat), f(n - 1));
    }
}

/// Sums of functions that agree on `0..n` are equal.
pub proof fn lemma_rsum_ext<R: Ring>(f: spec_fn(int) -> R, g: spec_fn(int) -> R, n: nat)
    requires
        forall|i: int| 0 <= i < n ==> #[trigger] f(i) == g(i),
    ensures
        rsum(f, n) == rsum(g, n),
    decreases n,
{
    if n > 0 {
        lemma_rsum_ext(f, g, (n - 1) as nat);
        assert(f(n - 1) == g(n - 1));
    }
}

/// `(a + b) + (c + d) = (a + c) + (b + d)`.
pub proof fn lemma_add_swap_middle<R: Ring>(a: R, b: R, c: R, d: R)
    requires
        a.wf(),
        b.wf(),
        c.wf(),
        d.wf(),
    ensures
        R::add_spec(R::add_spec(a, b), R::add_spec(c, d)) == R::add_spec(
            R::add_spec(a, c),
            R::add_spec(b, d),
        ),
{
    R::lemma_closed(b, c);
    R::lemma_closed(c, d);
    R::lemma_closed(b, d);
    R::lemma_closed(c, b);
    R::lemma_add_laws(a, b, R::add_spec(c, d));
    R::lemma_add_laws(b, c, d);
    R::lemma_add_laws(b, c, c);
    R::lemma_add_laws(c, b, d);
    R::lemma_add_laws(a, c, R::add_spec(b, d));
}

/// The sum of pointwise sums is the sum of the two sums.
pub proof fn lemma_rsum_add<R: Ring>(f: spec_fn(int) -> R, g: spec_fn(int) -> R, n: nat)
    requires
        R::params_ok(),
        fn_wf(f, n),
        fn_wf(g, n),
    ensures
        rsum(|i: int| R::add_spec(f(i), g(i)), n) == R::add_spec(rsum(f, n), rsum(g, n)),
    decreases n,
{
    R::lemma_identities_wf();
    let h = |i: int| R::add_spec(f(i), g(i));
    if n == 0 {
        R::lemma_add_laws(R::zero_spec(), R::zero_spec(), R::zero_spec());
    } else {
        let m = (n - 1) as nat;
        lemma_rsum_add(f, g, m);
        lemma_rsum_wf(f, m);
        lemma_rsum_wf(g, m);
        assert(f(m as int).wf());
        assert(g(m as int).wf());
        lemma_add_swap_middle(rsum(f, m), rsum(g, m), f(m as int), g(m as int));
        assert(rsum(h, n) == R::add_spec(rsum(h, m), h(m as int)));
    }
}

/// `c * sum f = sum (c * f)`.
pub proof fn lemma_rsum_scale<R: Ring>(c: R, f: spec_fn(int) -> R, n: nat)
    requires
        c.wf(),
        fn_wf(f, n),
    ensures
        R::mul_spec(c, rsum(f, n)) == rsum(|i: int| R::mul_spec(c, f(i)), n),
    decreases n,
{
    R::lemma_wf_params(c);
    R::lemma_identities_wf();
    let h = |i: int| R::mul_spec(c, f(i));
    if n == 0 {
        R::lemma_mul_laws(c, R::zero_spec(), R::zero_spec());
    } else {
        let m = (n - 1) as nat;
        lemma_rsum_scale(c, f, m);
        lemma_rsum_wf(f, m);
        assert(f(m as int).wf());
        R::lemma_mul_laws(c, rsum(f, m), f(m as int));
        assert(rsum(h, n) == R::add_spec(rsum(h, m), h(m as int)));
    }
}

/// A sum of zeros is zero.
pub proof fn lemma_rsum_zero<R: Ring>(f: spec_fn(int) -> R, n: nat)
    requires
        R::params_ok(),
        forall|i: int| 0 <= i < n ==> #[trigger] f(i) == R::zero_spec(),
    ensures
        rsum(f, n) == R::zero_spec(),
    decreases n,
{
    R::lemma_identities_wf();
    if n > 0 {
        lemma_rsum_zero(f, (n - 1) as nat);
        assert(f(n - 1) == R::zero_spec());
        R::lemma_add_laws(R::zero_spec(), R::zero_spec(), R::zero_spec());
    }
}

/// Splitting a sum after `m` terms.
pub proof fn lemma_rsum_split<R: Ring>(f: spec_fn(int) -> R, m: nat, k: nat)
    requires
        R::params_ok(),
        fn_wf(f, m + k),
    ensures
        rsum(f, m + k) == R::add_spec(rsum(f, m), rsum(|i: int| f(i + m), k)),
    decreases k,
{
    R::lemma_identities_wf();
    let g = |i: int| f(i + m);
    if k == 0 {
        lemma_rsum_wf(f, m);
        R::lemma_add_laws(rsum(f, m), R::zero_spec(), R::zero_spec());
    } else {
        let k1 = (k - 1) as nat;
        lemma_rsum_split(f, m, k1);
        assert(fn_wf(f, m)) by {
            assert forall|i: int| 0 <= i < m implies (#[trigger] f(i)).wf() by {
                assert(f(i).wf());
            }
        }
        assert(fn_wf(g, k1)) by {
            assert forall|i: int| 0 <= i < k1 implies (#[trigger] g(i)).wf() by {
                assert(f(i + m).wf());
            }
        }
        lemma_rsum_wf(f, m);
        lemma_rsum_wf(g, k1);
        assert(f((m + k1) as int).wf());
        R::lemma_add_laws(rsum(f, m), rsum(g, k1), f((m + k1) as int));
        assert((m + k - 1) as nat == m + k1);
        assert(g(k1 as int) == f((m + k1) as int));
    }
}

/// A sum over `0..2m` is the sum over the even indices plus the sum over the odd ones.
pub proof fn lemma_rsum_even_odd<R: Ring>(f: spec_fn(int) -> R, m: nat)
    requires
        R::params_ok(),
        fn_wf(f, 2 * m),
    ensures
        rsum(f, 2 * m) == R::add_spec(
            rsum(|j: int| f(2 * j), m),
            rsum(|j: int| f(2 * j + 1), m),
        ),
    decreases m,
{
    R::lemma_identities_wf();
    let e = |j: int| f(2 * j);
    let o = |j: int| f(2 * j + 1);
    if m == 0 {
        R::lemma_add_laws(R::zero_spec(), R::zero_spec(), R::zero_spec());
    } else {
        let m1 = (m - 1) as nat;
        assert(fn_wf(f, 2 * m1)) by {
            assert forall|i: int| 0 <= i < 2 * m1 implies (#[trigger] f(i)).wf() by {
                assert(f(i).wf());
            }
        }
        lemma_rsum_even_odd(f, m1);
        assert(fn_wf(e, m1)) by {
            assert forall|j: int| 0 <= j < m1 implies (#[trigger] e(j)).wf() by {
                assert(f(2 * j).wf());
            }
        }
        assert(fn_wf(o, m1)) by {
            assert forall|j: int| 0 <= j < m1 implies (#[trigger] o(j)).wf() by {
                assert(f(2 * j + 1).wf());
            }
        }
        lemma_rsum_wf(e, m1);
        lemma_rsum_wf(o, m1);
        let a = f(2 * m1 as int);
        let b = f(2 * m1 as int + 1);
        assert(a.wf());
        assert(b.wf());
        let se = rsum(e, m1);
        let so = rsum(o, m1);
        R::lemma_closed(se, so);
        assert((2 * m - 1) as nat == 2 * m1 + 1);
        assert(rsum(f, 2 * m) == R::add_spec(rsum(f, 2 * m1 + 1), b));
        assert(rsum(f, 2 * m1 + 1) == R::add_spec(rsum(f, 2 * m1), a));
        R::lemma_add_laws(R::add_spec(se, so), a, b);
        lemma_add_swap_middle(se, so, a, b);
        assert(e(m1 as int) == a);
        assert(o(m1 as int) == b);
    }
}

/// Exchanging the order of a double sum.
pub proof fn lemma_rsum_swap<R: Ring>(g: spec_fn(int, int) -> R, n: nat, m: nat)
    requires
        R::params_ok(),
        forall|i: int, j: int| 0 <= i < n && 0 <= j < m ==> (#[trigger] g(i, j)).wf(),
    ensures
        rsum(|i: int| rsum(|j: int| g(i, j), m), n) == rsum(|j: int| rsum(|i: int| g(i, j), n), m),
    decreases n,
{
    R::lemma_identities_wf();
    if n == 0 {
        lemma_rsum_zero(|j: int| rsum(|i: int| g(i, j), 0), m);
    } else {
        let n1 = (n - 1) as nat;
        lemma_rsum_swap(g, n1, m);
        let col = |j: int| rsum(|i: int| g(i, j), n1);
        let last = |j: int| g(n1 as int, j);
        assert(fn_wf(col, m)) by {
            assert forall|j: int| 0 <= j < m implies (#[trigger] col(j)).wf() by {
                assert(fn_wf(|i: int| g(i, j), n1)) by {
                    assert forall|i: int| 0 <= i < n1 implies (#[trigger] g(i, j)).wf() by {}
                }
                lemma_rsum_wf(|i: int| g(i, j), n1);
            }
        }
        assert(fn_wf(last, m)) by {
            assert forall|j: int| 0 <= j < m implies (#[trigger] last(j)).wf() by {
                assert(g(n1 as int, j).wf());
            }
        }
        lemma_rsum_add(col, last, m);
        lemma_rsum_ext(
            |j: int| rsum(|i: int| g(i, j), n),
            |j: int| R::add_spec(col(j), last(j)),
            m,
        );
        assert(rsum(|i: int| rsum(|j: int| g(i, j), m), n) == R::add_spec(
            rsum(|i: int| rsum(|j: int| g(i, j), m), n1),
            rsum(|j: int| g(n1 as int, j), m),
        ));
        lemma_rsum_ext(|j: int| g(n1 as int, j), last, m);
    }
}

/// A cyclic rotation of the summation index leaves a sum over `0..n` unchanged.
pub proof fn lemma_rsum_rotate<R: Ring>(f: spec_fn(int) -> R, n: nat, s: nat)
    requires
        R::params_ok(),
        fn_wf(f, n),
        s <= n,
        n > 0,
    ensures
        rsum(|j: int| f((j + s) % (n as int)), n) == rsum(f, n),
{
    let g = |j: int| f((j + s) % (n as int));
    let k = (n - s) as nat;
    assert(fn_wf(g, k + s)) by {
        assert forall|j: int| 0 <= j < k + s implies (#[trigger] g(j)).wf() by {
            assert(0 <= (j + s) % (n as int) < n);
            assert(f((j + s) % (n as int)).wf());
        }
    }
    lemma_rsum_split(g, k, s);
    assert(k + s == n);
    assert(fn_wf(f, s + k)) by {
        assert forall|i: int| 0 <= i < s + k implies (#[trigger] f(i)).wf() by {
            assert(f(i).wf());
        }
    }
    lemma_rsum_split(f, s, k);
    // the first `n - s` rotated terms are `f(s), ..., f(n - 1)`
    assert forall|j: int| 0 <= j < k implies #[trigger] g(j) == f(j + s) by {
        vstd::arithmetic::div_mod::lemma_small_mod((j + s) as nat, n);
    }
    lemma_rsum_ext(g, |j: int| f(j + s), k);
    // the last `s` rotated terms are `f(0), ..., f(s - 1)`
    assert forall|i: int| 0 <= i < s implies #[trigger] g(i + k) == f(i) by {
        assert(i + k + s == i + n);
        vstd::arithmetic::div_mod::lemma_mod_add_multiples_vanish(i, n as int);
        vstd::arithmetic::div_mod::lemma_small_mod(i as nat, n);
    }
    lemma_rsum_ext(|i: int| g(i + k), f, s);
    assert(fn_wf(f, s)) by {
        assert forall|i: int| 0 <= i < s implies (#[trigger] f(i)).wf() by {
            assert(f(i).wf());
        }
    }
    assert(fn_wf(|i: int| f(i + s), k)) by {
        assert forall|i: int| 0 <= i < k implies (#[trigger] f(i + s)).wf() by {}
    }
    lemma_rsum_wf(f, s);
    lemma_rsum_wf(|i: int| f(i + s), k);
    R::lemma_identities_wf();
    R::lemma_add_laws(rsum(f, s), rsum(|i: int| f(i + s), k), R::zero_spec());
}

/// `(a^m)^k = a^(m k)`.
pub proof fn lemma_pow_pow<R: Ring>(a: R, m: nat, k: nat)
    requires
        a.wf(),
    ensures
        pow_spec(pow_spec(a, m), k) == pow_spec(a, m * k),
    decreases k,
{
    R::lemma_wf_params(a);
    if k == 0 {
        assert(m * 0 == 0);
    } else {
        let k1 = (k - 1) as nat;
        lemma_pow_pow(a, m, k1);
        lemma_pow_adds(a, m * k1, m);
        assert(m * k1 + m == m * k) by (nonlinear_arith)
            requires
                k1 + 1 == k,
        ;
    }
}

/// When `w^n = 1`, exponents of `w` only matter modulo `n`.
pub proof fn lemma_pow_mod<R: Ring>(w: R, n: nat, e: nat)
    requires
        w.wf(),
        n > 0,
        pow_spec(w, n) == R::one_spec(),
    ensures
        pow_spec(w, e) == pow_spec(w, e % n),
{
    R::lemma_wf_params(w);
    R::lemma_identities_wf();
    let q = e / n;
    let r = e % n;
    vstd::arithmetic::div_mod::lemma_fundamental_div_mod(e as int, n as int);
    assert(e == n * q + r);
    lemma_pow_adds(w, n * q, r);
    lemma_pow_pow(w, n, q);
    lemma_pow_one::<R>(q);
    lemma_pow_wf(w, r);
    R::lemma_mul_laws(pow_spec(w, r), R::one_spec(), R::one_spec());
    R::lemma_mul_laws(R::one_spec(), pow_spec(w, r), pow_spec(w, r));
}

/// Exponents congruent modulo `n` give the same power of a root with `w^n = 1`.
pub proof fn lemma_pow_congruent<R: Ring>(w: R, n: nat, e1: nat, e2: nat)
    requires
        w.wf(),
        n > 0,
        pow_spec(w, n) == R::one_spec(),
        e1 % n == e2 % n,
    ensures
        pow_spec(w, e1) == pow_spec(w, e2),
{
    lemma_pow_mod(w, n, e1);
    lemma_pow_mod(w, n, e2);
}

/// The discrete Fourier transform of `x` at `w`: entry `k` is `sum_j x[j] * w^(j k)`.
pub open spec fn dft<R: Ring>(x: Seq<R>, w: R) -> Seq<R> {
    Seq::new(
        x.len(),
        |k: int| rsum(|j: int| R::mul_spec(x[j], pow_spec(w, (j * k) as nat)), x.len()),
    )
}

/// The terms `x[r + j d] * w^(d j t)` of a strided sub-transform.
spec fn block_term<R: Ring>(x: Seq<R>, w: R, r: int, d: int, t: int) -> spec_fn(int) -> R {
    |j: int| R::mul_spec(x[r + j * d], pow_spec(w, (d * j * t) as nat))
}

/// Entry `k` after `s` of the `l` radix-2 stages: the `2^s`-point transform, at
/// frequency `k mod 2^s`, of the elements `x[r], x[r + d], x[r + 2d], ...` with stride
/// `d = 2^(l - s)` that the bit-reversed block `k / 2^s` starts from.
spec fn stage_value<R: Ring>(x: Seq<R>, w: R, l: nat, s: nat, k: int) -> R {
    let m = pow2(s) as int;
    let d = pow2((l - s) as nat) as int;
    let r = rev((k / m) as nat, (l - s) as nat) as int;
    rsum(block_term(x, w, r, d, k % m), m as nat)
}

/// Before any stage, entry `k` is the bit-reversed input `x[rev(k)]`.
proof fn lemma_stage_value_base<R: Ring>(x: Seq<R>, w: R, l: nat, k: int)
    requires
        w.wf(),
        x.len() == pow2(l),
        seq_wf(x),
        0 <= k < x.len(),
    ensures
        stage_value(x, w, l, 0, k) == x[rev(k as nat, l) as int],
{
    R::lemma_wf_params(w);
    R::lemma_identities_wf();
    vstd::arithmetic::power2::lemma2_to64();
    assert(pow2(0) == 1);
    assert(k / 1 == k);
    assert(k % 1 == 0);
    assert((l - 0) as nat == l);
    let r = rev(k as nat, l) as int;
    lemma_rev_bound(k as nat, l);
    let d = pow2(l) as int;
    let f = block_term(x, w, r, d, 0);
    assert(r + 0 * d == r);
    assert((d * 0 * 0) as nat == 0);
    assert(f(0) == R::mul_spec(x[r], pow_spec(w, 0)));
    assert(x[r].wf());
    R::lemma_mul_laws(x[r], R::one_spec(), R::one_spec());
    lemma_add_zero_left(x[r]);
    assert(rsum(f, 1) == R::add_spec(rsum(f, 0), f(0)));
}

/// The block sizes and strides of stage `s` out of `l`.
proof fn lemma_stage_sizes(l: nat, s: nat)
    requires
        s < l,
    ensures
        pow2(s) > 0,
        pow2((l - s - 1) as nat) > 0,
        pow2(s + 1) == 2 * pow2(s),
        pow2((l - s) as nat) == 2 * pow2((l - s - 1) as nat),
        pow2((l - 1) as nat) == pow2(s) * pow2((l - s - 1) as nat),
        pow2(l) == 2 * pow2((l - 1) as nat),
        pow2(l) == 2 * pow2(s) * pow2((l - s - 1) as nat),
        pow2(l) / pow2(s + 1) == pow2((l - s - 1) as nat),
        (l - (s + 1)) as nat == (l - s - 1) as nat,
{
    let e = (l - s - 1) as nat;
    vstd::arithmetic::power2::lemma2_to64();
    lemma_pow2_pos(s);
    lemma_pow2_pos(e);
    lemma_pow2_adds(1, s);
    lemma_pow2_adds(1, e);
    lemma_pow2_adds(s, e);
    lemma_pow2_adds(1, (l - 1) as nat);
    assert(1 + s == s + 1);
    assert(1 + e == (l - s) as nat);
    assert(s + e == (l - 1) as nat);
    assert(1 + (l - 1) as nat == l);
    let m = pow2(s);
    let p = pow2(e);
    assert(2 * (m * p) == 2 * m * p) by (nonlinear_arith);
    assert(2 * m * p == (2 * m) * p);
    vstd::arithmetic::div_mod::lemma_div_multiples_vanish(p as int, (2 * m) as int);
    assert((2 * m) * p == pow2(l));
}

/// Bit reversal of an even and of an odd index over `e >= 1` bits.
proof fn lemma_rev_split(b: nat, e: nat)
    requires
        e >= 1,
    ensures
        rev(2 * b, e) == rev(b, (e - 1) as nat),
        rev(2 * b + 1, e) == pow2((e - 1) as nat) + rev(b, (e - 1) as nat),
{
    assert((2 * b) % 2 == 0);
    assert((2 * b) / 2 == b);
    assert((2 * b + 1) % 2 == 1);
    assert((2 * b + 1) / 2 == b);
}

/// Entry `k` of stage `s + 1` in the first half of its block of length `2M`:
/// `y[k] + y[k + M] * c^p`, where `y` is stage `s`, `p = k mod 2M` and `c` is the
/// stage's twiddle base `w^(2^(l - s - 1))`.
proof fn lemma_stage_step_low<R: Ring>(x: Seq<R>, w: R, l: nat, s: nat, k: int)
    requires
        w.wf(),
        x.len() == pow2(l),
        seq_wf(x),
        s < l,
        0 <= k < pow2(l),
        k % (2 * pow2(s) as int) < pow2(s),
    ensures
        stage_value(x, w, l, s + 1, k) == R::add_spec(
            stage_value(x, w, l, s, k),
            R::mul_spec(
                stage_value(x, w, l, s, k + pow2(s)),
                pow_spec(pow_spec(w, pow2((l - s - 1) as nat)), (k % (2 * pow2(s) as int)) as nat),
            ),
        ),
{
    R::lemma_wf_params(w);
    R::lemma_identities_wf();
    lemma_stage_sizes(l, s);
    let m = pow2(s) as int;
    let pp = pow2((l - s - 1) as nat) as int;
    let d = 2 * pp;
    let n = pow2(l) as int;
    let b = k / (2 * m);
    let p = k % (2 * m);
    vstd::arithmetic::div_mod::lemma_fundamental_div_mod(k, 2 * m);
    assert(k == (2 * m) * b + p);
    assert(0 <= b);
    lemma_rev_split(b as nat, (l - s) as nat);
    let r = rev(b as nat, (l - s - 1) as nat) as int;
    lemma_rev_bound(b as nat, (l - s - 1) as nat);
    assert(b * (2 * m) <= k) by (nonlinear_arith)
        requires
            k == (2 * m) * b + p,
            p >= 0,
    ;
    // stage s + 1 at k
    let f = block_term(x, w, r, pp, p);
    assert(stage_value(x, w, l, s + 1, k) == rsum(f, (2 * m) as nat));
    assert(fn_wf(f, 2 * (m as nat))) by {
        assert forall|i: int| 0 <= i < 2 * m implies (#[trigger] f(i)).wf() by {
            assert(0 <= r + i * pp < n) by (nonlinear_arith)
                requires
                    0 <= r < pp,
                    0 <= i < 2 * m,
                    n == 2 * m * pp,
            ;
            lemma_pow_wf(w, (pp * i * p) as nat);
            R::lemma_closed(x[r + i * pp], pow_spec(w, (pp * i * p) as nat));
        }
    }
    lemma_rsum_even_odd(f, m as nat);
    // stage s at k: block 2b, frequency p
    assert(k == (2 * b) * m + p) by (nonlinear_arith)
        requires
            k == (2 * m) * b + p,
    ;
    vstd::arithmetic::div_mod::lemma_fundamental_div_mod_converse(k, m, 2 * b, p);
    let ev = block_term(x, w, r, d, p);
    assert(stage_value(x, w, l, s, k) == rsum(ev, m as nat));
    assert forall|j: int| 0 <= j < m implies #[trigger] f(2 * j) == ev(j) by {
        assert(r + (2 * j) * pp == r + j * d) by (nonlinear_arith)
            requires
                d == 2 * pp,
        ;
        assert(pp * (2 * j) * p == d * j * p) by (nonlinear_arith)
            requires
                d == 2 * pp,
        ;
    }
    lemma_rsum_ext(|j: int| f(2 * j), ev, m as nat);
    // stage s at k + m: block 2b + 1, frequency p
    assert(k + m == (2 * b + 1) * m + p) by (nonlinear_arith)
        requires
            k == (2 * m) * b + p,
    ;
    vstd::arithmetic::div_mod::lemma_fundamental_div_mod_converse(k + m, m, 2 * b + 1, p);
    let od = block_term(x, w, pp + r, d, p);
    assert(stage_value(x, w, l, s, k + m) == rsum(od, m as nat));
    let c = pow_spec(pow_spec(w, pp as nat), p as nat);
    lemma_pow_pow(w, pp as nat, p as nat);
    lemma_pow_wf(w, (pp * p) as nat);
    assert(fn_wf(od, m as nat)) by {
        assert forall|j: int| 0 <= j < m implies (#[trigger] od(j)).wf() by {
            assert(0 <= pp + r + j * d < n) by (nonlinear_arith)
                requires
                    0 <= r < pp,
                    0 <= j < m,
                    d == 2 * pp,
                    n == 2 * m * pp,
            ;
            lemma_pow_wf(w, (d * j * p) as nat);
            R::lemma_closed(x[pp + r + j * d], pow_spec(w, (d * j * p) as nat));
        }
    }
    assert forall|j: int| 0 <= j < m implies #[trigger] f(2 * j + 1) == R::mul_spec(c, od(j)) by {
        assert(r + (2 * j + 1) * pp == pp + r + j * d) by (nonlinear_arith)
            requires
                d == 2 * pp,
        ;
        assert(pp * (2 * j + 1) * p == d * j * p + pp * p) by (nonlinear_arith)
            requires
                d == 2 * pp,
        ;
        assert(0 <= d * j * p) by (nonlinear_arith)
            requires
                d >= 0,
                j >= 0,
                p >= 0,
        ;
        assert(0 <= pp * p) by (nonlinear_arith)
            requires
                pp >= 0,
                p >= 0,
        ;
        let a = pow_spec(w, (d * j * p) as nat);
        lemma_pow_adds(w, (d * j * p) as nat, (pp * p) as nat);
        assert(((d * j * p) as nat + (pp * p) as nat) as int == pp * (2 * j + 1) * p);
        let xo = x[pp + r + j * d];
        assert(0 <= pp + r + j * d < n) by (nonlinear_arith)
            requires
                0 <= r < pp,
                0 <= j < m,
                d == 2 * pp,
                n == 2 * m * pp,
        ;
        lemma_pow_wf(w, (d * j * p) as nat);
        R::lemma_mul_laws(xo, a, c);
        R::lemma_closed(xo, a);
        R::lemma_mul_laws(R::mul_spec(xo, a), c, c);
    }
    lemma_rsum_ext(|j: int| f(2 * j + 1), |j: int| R::mul_spec(c, od(j)), m as nat);
    lemma_rsum_scale(c, od, m as nat);
    lemma_rsum_wf(od, m as nat);
    R::lemma_mul_laws(c, rsum(od, m as nat), c);
}

/// Entry `k` of stage `s + 1` in the second half of its block of length `2M`:
/// `y[k - M] - y[k] * c^(p - M)`, where `y` is stage `s`, `p = k mod 2M` and `c` is
/// the stage's twiddle base; this uses `w^n = 1` and `w^(n/2) = -1`.
proof fn lemma_stage_step_high<R: Ring>(x: Seq<R>, w: R, l: nat, s: nat, k: int)
    requires
        w.wf(),
        x.len() == pow2(l),
        seq_wf(x),
        s < l,
        0 <= k < pow2(l),
        k % (2 * pow2(s) as int) >= pow2(s),
        pow_spec(w, pow2(l)) == R::one_spec(),
        pow_spec(w, pow2((l - 1) as nat)) == R::neg_spec(R::one_spec()),
    ensures
        stage_value(x, w, l, s + 1, k) == R::sub_spec(
            stage_value(x, w, l, s, k - pow2(s)),
            R::mul_spec(
                stage_value(x, w, l, s, k),
                pow_spec(
                    pow_spec(w, pow2((l - s - 1) as nat)),
                    (k % (2 * pow2(s) as int) - pow2(s)) as nat,
                ),
            ),
        ),
{
    R::lemma_wf_params(w);
    R::lemma_identities_wf();
    lemma_stage_sizes(l, s);
    let m = pow2(s) as int;
    let pp = pow2((l - s - 1) as nat) as int;
    let d = 2 * pp;
    let n = pow2(l) as int;
    let b = k / (2 * m);
    let p = k % (2 * m);
    let q = p - m;
    vstd::arithmetic::div_mod::lemma_fundamental_div_mod(k, 2 * m);
    assert(k == (2 * m) * b + p);
    assert(0 <= b);
    lemma_rev_split(b as nat, (l - s) as nat);
    let r = rev(b as nat, (l - s - 1) as nat) as int;
    lemma_rev_bound(b as nat, (l - s - 1) as nat);
    assert(d * m == n) by (nonlinear_arith)
        requires
            d == 2 * pp,
            n == 2 * m * pp,
    ;
    assert(pp * m == pow2((l - 1) as nat));
    // stage s + 1 at k
    let f = block_term(x, w, r, pp, p);
    assert(stage_value(x, w, l, s + 1, k) == rsum(f, (2 * m) as nat));
    assert(fn_wf(f, 2 * (m as nat))) by {
        assert forall|i: int| 0 <= i < 2 * m implies (#[trigger] f(i)).wf() by {
            assert(0 <= r + i * pp < n) by (nonlinear_arith)
                requires
                    0 <= r < pp,
                    0 <= i < 2 * m,
                    n == 2 * m * pp,
            ;
            lemma_pow_wf(w, (pp * i * p) as nat);
            R::lemma_closed(x[r + i * pp], pow_spec(w, (pp * i * p) as nat));
        }
    }
    lemma_rsum_even_odd(f, m as nat);
    // stage s at k - m: block 2b, frequency q
    assert(k - m == (2 * b) * m + q) by (nonlinear_arith)
        requires
            k == (2 * m) * b + p,
            q == p - m,
    ;
    vstd::arithmetic::div_mod::lemma_fundamental_div_mod_converse(k - m, m, 2 * b, q);
    let ev = block_term(x, w, r, d, q);
    assert(stage_value(x, w, l, s, k - m) == rsum(ev, m as nat));
    assert forall|j: int| 0 <= j < m implies #[trigger] f(2 * j) == ev(j) by {
        assert(r + (2 * j) * pp == r + j * d) by (nonlinear_arith)
            requires
                d == 2 * pp,
        ;
        assert(pp * (2 * j) * p == n * j + d * j * q) by (nonlinear_arith)
            requires
                d == 2 * pp,
                d * m == n,
                q == p - m,
        ;
        assert(0 <= d * j * q) by (nonlinear_arith)
            requires
                d >= 0,
                j >= 0,
                q >= 0,
        ;
        vstd::arithmetic::div_mod::lemma_mod_multiples_vanish(j, d * j * q, n);
        lemma_pow_congruent(w, n as nat, (pp * (2 * j) * p) as nat, (d * j * q) as nat);
    }
    lemma_rsum_ext(|j: int| f(2 * j), ev, m as nat);
    // stage s at k: block 2b + 1, frequency q
    assert(k == (2 * b + 1) * m + q) by (nonlinear_arith)
        requires
            k == (2 * m) * b + p,
            q == p - m,
    ;
    vstd::arithmetic::div_mod::lemma_fundamental_div_mod_converse(k, m, 2 * b + 1, q);
    let od = block_term(x, w, pp + r, d, q);
    assert(stage_value(x, w, l, s, k) == rsum(od, m as nat));
    let c = pow_spec(pow_spec(w, pp as nat), q as nat);
    let neg1 = R::neg_spec(R::one_spec());
    let nc = R::mul_spec(c, neg1);
    lemma_pow_pow(w, pp as nat, q as nat);
    lemma_pow_wf(w, (pp * q) as nat);
    R::lemma_closed(R::one_spec(), R::one_spec());
    R::lemma_closed(c, neg1);
    assert(fn_wf(od, m as nat)) by {
        assert forall|j: int| 0 <= j < m implies (#[trigger] od(j)).wf() by {
            assert(0 <= pp + r + j * d < n) by (nonlinear_arith)
                requires
                    0 <= r < pp,
                    0 <= j < m,
                    d == 2 * pp,
                    n == 2 * m * pp,
            ;
            lemma_pow_wf(w, (d * j * q) as nat);
            R::lemma_closed(x[pp + r + j * d], pow_spec(w, (d * j * q) as nat));
        }
    }
    assert forall|j: int| 0 <= j < m implies #[trigger] f(2 * j + 1) == R::mul_spec(nc, od(j)) by {
        assert(r + (2 * j + 1) * pp == pp + r + j * d) by (nonlinear_arith)
            requires
                d == 2 * pp,
        ;
        assert(pp * (2 * j + 1) * p == n * j + (d * j * q + pp * q + pp * m)) by (nonlinear_arith)
            requires
                d == 2 * pp,
                d * m == n,
                q == p - m,
        ;
        assert(0 <= d * j * q) by (nonlinear_arith)
            requires
                d >= 0,
                j >= 0,
                q >= 0,
        ;
        assert(0 <= pp * q) by (nonlinear_arith)
            requires
                pp >= 0,
                q >= 0,
        ;
        let e3 = d * j * q + pp * q + pp * m;
        vstd::arithmetic::div_mod::lemma_mod_multiples_vanish(j, e3, n);
        lemma_pow_congruent(w, n as nat, (pp * (2 * j + 1) * p) as nat, e3 as nat);
        let a = pow_spec(w, (d * j * q) as nat);
        lemma_pow_adds(w, (d * j * q) as nat, (pp * q) as nat);
        lemma_pow_adds(w, (d * j * q + pp * q) as nat, (pp * m) as nat);
        assert(((d * j * q) as nat + (pp * q) as nat) as nat == (d * j * q + pp * q) as nat);
        assert(((d * j * q + pp * q) as nat + (pp * m) as nat) as nat == e3 as nat);
        let xo = x[pp + r + j * d];
        assert(0 <= pp + r + j * d < n) by (nonlinear_arith)
            requires
                0 <= r < pp,
                0 <= j < m,
                d == 2 * pp,
                n == 2 * m * pp,
        ;
        lemma_pow_wf(w, (d * j * q) as nat);
        R::lemma_mul_laws(a, c, neg1);
        R::lemma_closed(a, nc);
        R::lemma_mul_laws(xo, a, nc);
        R::lemma_closed(xo, a);
        R::lemma_mul_laws(R::mul_spec(xo, a), nc, nc);
    }
    lemma_rsum_ext(|j: int| f(2 * j + 1), |j: int| R::mul_spec(nc, od(j)), m as nat);
    lemma_rsum_scale(nc, od, m as nat);
    lemma_rsum_wf(od, m as nat);
    let osum = rsum(od, m as nat);
    R::lemma_mul_laws(nc, osum, osum);
    lemma_mul_neg(c, R::one_spec());
    R::lemma_mul_laws(c, R::one_spec(), R::one_spec());
    lemma_mul_neg(osum, c);
    assert(fn_wf(ev, m as nat)) by {
        assert forall|j: int| 0 <= j < m implies (#[trigger] ev(j)).wf() by {
            assert(f(2 * j).wf());
        }
    }
    lemma_rsum_wf(ev, m as nat);
    R::lemma_closed(osum, c);
    R::lemma_add_laws(rsum(ev, m as nat), R::mul_spec(osum, c), R::mul_spec(osum, c));
}

/// After `s` forward stages of `plan`, entry `k` is [`stage_value`] of the input.
proof fn lemma_fwd_upto_stage<R: Ring>(plan: &NttPlan<R>, x: Seq<R>, s: nat)
    requires
        plan.wf(),
        x.len() == plan.plan_len(),
        seq_wf(x),
        s <= log2(plan.plan_len()),
    ensures
        fwd_upto(x, plan.forward_twiddles(), log2(plan.plan_len()), s).len() == x.len(),
        forall|k: int|
            0 <= k < x.len() ==> #[trigger] fwd_upto(
                x,
                plan.forward_twiddles(),
                log2(plan.plan_len()),
                s,
            )[k] == stage_value(x, plan.root(), log2(plan.plan_len()), s, k),
    decreases s,
{
    plan.lemma_forward_facts();
    let n = plan.plan_len();
    let l = log2(n);
    let w = plan.root();
    let tw = plan.forward_twiddles();
    if s == 0 {
        assert forall|k: int| 0 <= k < x.len() implies #[trigger] fwd_upto(x, tw, l, s)[k]
            == stage_value(x, w, l, s, k) by {
            lemma_stage_value_base(x, w, l, k);
        }
    } else {
        let s1 = (s - 1) as nat;
        lemma_fwd_upto_stage(plan, x, s1);
        lemma_stage_sizes(l, s1);
        let y = fwd_upto(x, tw, l, s1);
        let h = pow2(s1);
        let m = h as int;
        let pp = pow2((l - s1 - 1) as nat);
        assert(tw[s1 as int] == powers_seq(pow_spec(w, n / pow2(s1 + 1)), pow2(s1)));
        assert(n / pow2(s1 + 1) == pp);
        assert(s1 + 1 == s);
        if n > 1 {
            assert(n / 2 == pow2((l - 1) as nat));
        } else {
            vstd::arithmetic::power2::lemma2_to64();
            assert(l >= 1);
            lemma_pow2_pos((l - 1) as nat);
            assert(false);
        }
        assert forall|k: int| 0 <= k < x.len() implies #[trigger] fwd_upto(x, tw, l, s)[k]
            == stage_value(x, w, l, s, k) by {
            let p = k % (2 * m);
            let bq = k / (2 * m);
            vstd::arithmetic::div_mod::lemma_fundamental_div_mod(k, 2 * m);
            assert(k == (2 * m) * bq + p);
            assert(bq < pp as int) by (nonlinear_arith)
                requires
                    k == (2 * m) * bq + p,
                    0 <= p,
                    k < n,
                    n == 2 * m * pp,
                    m > 0,
            ;
            assert(k - p + 2 * m <= n) by (nonlinear_arith)
                requires
                    k == (2 * m) * bq + p,
                    bq < pp,
                    n == 2 * m * pp,
                    m > 0,
            ;
            if p < m {
                lemma_stage_step_low(x, w, l, s1, k);
                assert(fwd_upto(x, tw, l, s)[k] == R::add_spec(
                    y[k],
                    R::mul_spec(y[k + m], tw[s1 as int][p]),
                ));
            } else {
                lemma_stage_step_high(x, w, l, s1, k);
                assert(fwd_upto(x, tw, l, s)[k] == R::sub_spec(
                    y[k - m],
                    R::mul_spec(y[k], tw[s1 as int][p - m]),
                ));
            }
        }
    }
}

/// The radix-2 plan computes the discrete Fourier transform at its root:
/// `forward(x)[k] = sum_j x[j] * root^(j k)`.
pub proof fn lemma_forward_is_dft<R: Ring>(plan: &NttPlan<R>, x: Seq<R>)
    requires
        plan.wf(),
        x.len() == plan.plan_len(),
        seq_wf(x),
    ensures
        plan.forward_spec(x) == dft(x, plan.root()),
{
    plan.lemma_forward_facts();
    let n = plan.plan_len();
    let l = log2(n);
    let w = plan.root();
    lemma_fwd_upto_stage(plan, x, l);
    vstd::arithmetic::power2::lemma2_to64();
    assert forall|k: int| 0 <= k < n implies #[trigger] plan.forward_spec(x)[k] == dft(x, w)[k] by {
        vstd::arithmetic::div_mod::lemma_fundamental_div_mod_converse(k, n as int, 0, k);
        assert((l - l) as nat == 0);
        assert(rev(0, 0) == 0);
        let f = block_term(x, w, 0, 1, k);
        let g = |j: int| R::mul_spec(x[j], pow_spec(w, (j * k) as nat));
        assert(stage_value(x, w, l, l, k) == rsum(f, n));
        assert forall|j: int| 0 <= j < n implies #[trigger] f(j) == g(j) by {
            assert(0 + j * 1 == j);
            assert(1 * j * k == j * k);
        }
        lemma_rsum_ext(f, g, n);
    }
    assert(plan.forward_spec(x) =~= dft(x, w));
}

/// The cyclic convolution of `a` and `b` (of the same length `n`): entry `m` is
/// `sum_i a[i] * b[(m - i) mod n]`.
pub open spec fn cyclic_conv<R: Ring>(a: Seq<R>, b: Seq<R>) -> Seq<R> {
    Seq::new(
        a.len(),
        |m: int| rsum(|i: int| R::mul_spec(a[i], b[(m - i) % (a.len() as int)]), a.len()),
    )
}

/// `(a * b) * (c * d) = (a * c) * (b * d)`.
pub(crate) proof fn lemma_mul_swap_middle<R: Ring>(a: R, b: R, c: R, d: R)
    requires
        a.wf(),
        b.wf(),
        c.wf(),
        d.wf(),
    ensures
        R::mul_spec(R::mul_spec(a, b), R::mul_spec(c, d)) == R::mul_spec(
            R::mul_spec(a, c),
            R::mul_spec(b, d),
        ),
{
    R::lemma_closed(b, c);
    R::lemma_closed(c, d);
    R::lemma_closed(b, d);
    R::lemma_closed(c, b);
    R::lemma_mul_laws(a, b, R::mul_spec(c, d));
    R::lemma_mul_laws(b, c, d);
    R::lemma_mul_laws(b, c, c);
    R::lemma_mul_laws(c, b, d);
    R::lemma_mul_laws(a, c, R::mul_spec(b, d));
}

/// The terms `(a[i] * b[(m - i) mod n]) * w^(m k)` of the transform of a convolution.
spec fn conv_g<R: Ring>(a: Seq<R>, b: Seq<R>, w: R, k: int) -> spec_fn(int, int) -> R {
    |i: int, m: int|
        R::mul_spec(
            R::mul_spec(a[i], b[(m - i) % (a.len() as int)]),
            pow_spec(w, (m * k) as nat),
        )
}

/// The terms `(a[i] * w^(i k)) * (b[j] * w^(j k))` of a product of two transforms.
spec fn conv_h<R: Ring>(a: Seq<R>, b: Seq<R>, w: R, k: int) -> spec_fn(int, int) -> R {
    |i: int, j: int|
        R::mul_spec(
            R::mul_spec(a[i], pow_spec(w, (i * k) as nat)),
            R::mul_spec(b[j], pow_spec(w, (j * k) as nat)),
        )
}

/// `(m - i) mod n` lies in `0..n`, and `(i + (m - i) mod n) k = m k (mod n)`.
proof fn lemma_conv_index(n: int, i: int, m: int, k: int)
    requires
        0 <= i < n,
        0 <= m < n,
        0 <= k,
    ensures
        0 <= (m - i) % n < n,
        ((i + (m - i) % n) * k) % n == (m * k) % n,
        (m + (n - i)) % n == (m - i) % n,
        0 <= (i + (m - i) % n) * k,
        0 <= m * k,
{
    vstd::arithmetic::div_mod::lemma_mod_add_multiples_vanish(m - i, n);
    assert(0 <= m * k) by (nonlinear_arith)
        requires
            0 <= m,
            0 <= k,
    ;
    if m >= i {
        vstd::arithmetic::div_mod::lemma_small_mod((m - i) as nat, n as nat);
        assert(i + (m - i) % n == m);
    } else {
        vstd::arithmetic::div_mod::lemma_fundamental_div_mod_converse(m - i, n, -1, m - i + n);
        assert(i + (m - i) % n == m + n);
        assert((m + n) * k == n * k + m * k) by (nonlinear_arith);
        vstd::arithmetic::div_mod::lemma_mod_multiples_vanish(k, m * k, n);
    }
    assert(0 <= (i + (m - i) % n) * k) by (nonlinear_arith)
        requires
            0 <= i + (m - i) % n,
            0 <= k,
    ;
}

/// Row `i` of a double-indexed family: `j -> g(i, j)`.
spec fn row<R>(g: spec_fn(int, int) -> R, i: int) -> spec_fn(int) -> R {
    |j: int| g(i, j)
}

/// Column `j` of a double-indexed family: `i -> g(i, j)`.
spec fn col<R>(g: spec_fn(int, int) -> R, j: int) -> spec_fn(int) -> R {
    |i: int| g(i, j)
}

/// The transform of a cyclic convolution is the pointwise product of the transforms,
/// at any `w` with `w^n = 1`.
pub proof fn lemma_dft_convolution<R: Ring>(a: Seq<R>, b: Seq<R>, w: R, k: int)
    requires
        a.len() == b.len(),
        a.len() > 0,
        seq_wf(a),
        seq_wf(b),
        w.wf(),
        pow_spec(w, a.len()) == R::one_spec(),
        0 <= k < a.len(),
    ensures
        dft(cyclic_conv(a, b), w)[k] == R::mul_spec(dft(a, w)[k], dft(b, w)[k]),
{
    R::lemma_wf_params(w);
    R::lemma_identities_wf();
    let n = a.len();
    let ni = n as int;
    let c = cyclic_conv(a, b);
    let g = conv_g(a, b, w, k);
    let h = conv_h(a, b, w, k);
    assert(0 <= k);
    // every term is valid
    assert forall|i: int, m: int| 0 <= i < n && 0 <= m < n implies (#[trigger] g(i, m)).wf() by {
        lemma_conv_index(ni, i, m, k);
        lemma_pow_wf(w, (m * k) as nat);
        R::lemma_closed(a[i], b[(m - i) % ni]);
        R::lemma_closed(R::mul_spec(a[i], b[(m - i) % ni]), pow_spec(w, (m * k) as nat));
    }
    assert forall|i: int, j: int| 0 <= i < n && 0 <= j < n implies (#[trigger] h(i, j)).wf() by {
        assert(0 <= i * k && 0 <= j * k) by (nonlinear_arith)
            requires
                0 <= i,
                0 <= j,
                0 <= k,
        ;
        lemma_pow_wf(w, (i * k) as nat);
        lemma_pow_wf(w, (j * k) as nat);
        R::lemma_closed(a[i], pow_spec(w, (i * k) as nat));
        R::lemma_closed(b[j], pow_spec(w, (j * k) as nat));
        R::lemma_closed(
            R::mul_spec(a[i], pow_spec(w, (i * k) as nat)),
            R::mul_spec(b[j], pow_spec(w, (j * k) as nat)),
        );
    }
    // the transform of the convolution as a double sum, outer index m
    assert forall|m: int| 0 <= m < n implies #[trigger] R::mul_spec(c[m], pow_spec(w, (m * k) as nat))
        == rsum(col(g, m), n) by {
        let t = |i: int| R::mul_spec(a[i], b[(m - i) % ni]);
        assert(c[m] == rsum(t, n));
        assert(fn_wf(t, n)) by {
            assert forall|i: int| 0 <= i < n implies (#[trigger] t(i)).wf() by {
                lemma_conv_index(ni, i, m, k);
                R::lemma_closed(a[i], b[(m - i) % ni]);
            }
        }
        lemma_conv_index(ni, 0, m, k);
        let pw = pow_spec(w, (m * k) as nat);
        lemma_pow_wf(w, (m * k) as nat);
        lemma_rsum_wf(t, n);
        R::lemma_mul_laws(c[m], pw, pw);
        lemma_rsum_scale(pw, t, n);
        assert forall|i: int| 0 <= i < n implies #[trigger] R::mul_spec(pw, t(i)) == g(i, m) by {
            lemma_conv_index(ni, i, m, k);
            R::lemma_closed(a[i], b[(m - i) % ni]);
            R::lemma_mul_laws(pw, t(i), t(i));
        }
        lemma_rsum_ext(|i: int| R::mul_spec(pw, t(i)), col(g, m), n);
    }
    lemma_rsum_ext(
        |m: int| R::mul_spec(c[m], pow_spec(w, (m * k) as nat)),
        |m: int| rsum(col(g, m), n),
        n,
    );
    assert(dft(c, w)[k] == rsum(|m: int| rsum(col(g, m), n), n));
    // exchange the two sums
    lemma_rsum_swap(g, n, n);
    lemma_rsum_ext(|m: int| rsum(col(g, m), n), |j: int| rsum(|i: int| g(i, j), n), n);
    lemma_rsum_ext(|i: int| rsum(row(g, i), n), |i: int| rsum(|j: int| g(i, j), n), n);
    // for each i, the inner sum over m is the inner sum over j = (m - i) mod n
    assert forall|i: int| 0 <= i < n implies #[trigger] rsum(row(g, i), n) == rsum(row(h, i), n) by {
        let hi = row(h, i);
        assert(fn_wf(hi, n)) by {
            assert forall|j: int| 0 <= j < n implies (#[trigger] hi(j)).wf() by {
                assert(h(i, j).wf());
            }
        }
        lemma_rsum_rotate(hi, n, (ni - i) as nat);
        assert forall|m: int| 0 <= m < n implies #[trigger] g(i, m) == hi((m + (ni - i) as nat) % ni) by {
            lemma_conv_index(ni, i, m, k);
            let j = (m - i) % ni;
            assert((m + (ni - i) as nat) % ni == j);
            let pi = pow_spec(w, (i * k) as nat);
            let pj = pow_spec(w, (j * k) as nat);
            assert(0 <= i * k && 0 <= j * k) by (nonlinear_arith)
                requires
                    0 <= i,
                    0 <= j,
                    0 <= k,
            ;
            lemma_pow_wf(w, (i * k) as nat);
            lemma_pow_wf(w, (j * k) as nat);
            lemma_mul_swap_middle(a[i], pi, b[j], pj);
            lemma_pow_adds(w, (i * k) as nat, (j * k) as nat);
            assert(((i * k) as nat + (j * k) as nat) as int == (i + j) * k) by (nonlinear_arith)
                requires
                    0 <= i * k,
                    0 <= j * k,
            ;
            lemma_pow_congruent(w, n, ((i + j) * k) as nat, (m * k) as nat);
        }
        lemma_rsum_ext(row(g, i), |m: int| hi((m + (ni - i) as nat) % ni), n);
    }
    lemma_rsum_ext(|i: int| rsum(row(g, i), n), |i: int| rsum(row(h, i), n), n);
    // the double sum of h factors into the product of the two transforms
    let av = |i: int| R::mul_spec(a[i], pow_spec(w, (i * k) as nat));
    let bv = |j: int| R::mul_spec(b[j], pow_spec(w, (j * k) as nat));
    assert(dft(a, w)[k] == rsum(av, n));
    assert(dft(b, w)[k] == rsum(bv, n));
    assert(fn_wf(av, n)) by {
        assert forall|i: int| 0 <= i < n implies (#[trigger] av(i)).wf() by {
            assert(0 <= i * k) by (nonlinear_arith)
                requires
                    0 <= i,
                    0 <= k,
            ;
            lemma_pow_wf(w, (i * k) as nat);
            R::lemma_closed(a[i], pow_spec(w, (i * k) as nat));
        }
    }
    assert(fn_wf(bv, n)) by {
        assert forall|j: int| 0 <= j < n implies (#[trigger] bv(j)).wf() by {
            assert(0 <= j * k) by (nonlinear_arith)
                requires
                    0 <= j,
                    0 <= k,
            ;
            lemma_pow_wf(w, (j * k) as nat);
            R::lemma_closed(b[j], pow_spec(w, (j * k) as nat));
        }
    }
    let bs = rsum(bv, n);
    let as_ = rsum(av, n);
    lemma_rsum_wf(av, n);
    lemma_rsum_wf(bv, n);
    assert forall|i: int| 0 <= i < n implies #[trigger] rsum(row(h, i), n) == R::mul_spec(
        bs,
        av(i),
    ) by {
        lemma_rsum_scale(av(i), bv, n);
        assert forall|j: int| 0 <= j < n implies #[trigger] h(i, j) == R::mul_spec(av(i), bv(j)) by {}
        lemma_rsum_ext(row(h, i), |j: int| R::mul_spec(av(i), bv(j)), n);
        R::lemma_mul_laws(av(i), bs, bs);
    }
    lemma_rsum_ext(|i: int| rsum(row(h, i), n), |i: int| R::mul_spec(bs, av(i)), n);
    lemma_rsum_scale(bs, av, n);
    R::lemma_mul_laws(bs, as_, as_);
}

} // verus!
