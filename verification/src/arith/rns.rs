//! Residue Number System (RNS) arithmetic.
//!
//! An RNS basis is a list of pairwise-coprime 64-bit moduli `m_0, ..., m_{k-1}`.
//! An integer `x` in `[0, M)` with `M = m_0 * ... * m_{k-1}` is represented by
//! its residues `x mod m_i`; reconstruction uses Garner's mixed-radix method.
use vstd::arithmetic::div_mod::{
    lemma_fundamental_div_mod, lemma_mod_bound, lemma_mod_multiples_basic, lemma_small_mod,
};
use crate::arith::bigint::{BigUint, limb_pow, limbs_value, lemma_limb_pow, lemma_limbs_value_skip};
use vstd::prelude::*;

verus! {

/// Greatest common divisor by Euclid's recursion.
pub open spec fn gcd_spec(a: nat, b: nat) -> nat
    decreases b,
{
    if b == 0 {
        a
    } else {
        gcd_spec(b, a % b)
    }
}

/// `d` divides `n`.
pub open spec fn divides(d: nat, n: nat) -> bool {
    d > 0 && n % d == 0
}

/// No integer strictly between `1` and `p` divides `p`.
pub open spec fn is_prime(p: nat) -> bool {
    p > 1 && forall|d: nat| 1 < d < p ==> #[trigger] (p % d) != 0
}

/// If `g` divides `x` and `y`, it divides `x * k + y`.
pub(crate) proof fn lemma_divides_lin(g: nat, x: nat, y: nat, k: nat)
    requires
        g > 0,
        x % g == 0,
        y % g == 0,
    ensures
        (x * k + y) % g == 0,
{
    lemma_fundamental_div_mod(x as int, g as int);
    lemma_fundamental_div_mod(y as int, g as int);
    let qx = x / g;
    let qy = y / g;
    assert(x * k + y == g * (qx * k + qy)) by (nonlinear_arith)
        requires
            x == g * qx,
            y == g * qy,
    ;
    assert(qx * k + qy >= 0) by (nonlinear_arith)
        requires
            qx >= 0,
            qy >= 0,
            k >= 0,
    ;
    lemma_mod_multiples_basic((qx * k + qy) as int, g as int);
    assert((qx * k + qy) * g == g * (qx * k + qy)) by (nonlinear_arith);
}

/// If `g` divides `x * k + y` and `x`, it divides `y`.
pub(crate) proof fn lemma_divides_sub(g: nat, x: nat, y: nat, k: nat)
    requires
        g > 0,
        x % g == 0,
        (x * k + y) % g == 0,
    ensures
        y % g == 0,
{
    lemma_fundamental_div_mod(x as int, g as int);
    lemma_fundamental_div_mod((x * k + y) as int, g as int);
    let qx = x / g;
    let qs = (x * k + y) / g;
    assert(y == g * (qs - qx * k)) by (nonlinear_arith)
        requires
            x == g * qx,
            x * k + y == g * qs,
    ;
    lemma_mod_multiples_basic(qs - qx * k, g as int);
    assert((qs - qx * k) * g == g * (qs - qx * k)) by (nonlinear_arith);
}

/// The gcd divides both arguments, and every common divisor divides it.
pub proof fn lemma_gcd_divides(a: nat, b: nat)
    requires
        a > 0 || b > 0,
    ensures
        gcd_spec(a, b) > 0,
        a % gcd_spec(a, b) == 0,
        b % gcd_spec(a, b) == 0,
        forall|d: nat| d > 0 && #[trigger] (a % d) == 0 && b % d == 0 ==> gcd_spec(a, b) % d == 0,
    decreases b,
{
    if b == 0 {
        vstd::arithmetic::div_mod::lemma_mod_self_0(a as int);
        lemma_small_mod(0, a);
    } else {
        let r = a % b;
        lemma_mod_bound(a as int, b as int);
        lemma_gcd_divides(b, r);
        let g = gcd_spec(b, r);
        lemma_fundamental_div_mod(a as int, b as int);
        let q = a / b;
        assert(a == b * q + r);
        assert(b * q == q * b) by (nonlinear_arith);
        lemma_divides_lin(g, b, r, q);
        assert forall|d: nat| d > 0 && #[trigger] (a % d) == 0 && b % d == 0 implies g % d == 0 by {
            lemma_divides_sub(d, b, r, q);
        }
    }
}

/// For a prime `p` and `0 < a < p`, `gcd(a, p) == 1`.
pub proof fn lemma_gcd_prime(a: nat, p: nat)
    requires
        is_prime(p),
        0 < a < p,
    ensures
        gcd_spec(a, p) == 1,
{
    lemma_gcd_divides(a, p);
    let g = gcd_spec(a, p);
    if g > 1 {
        assert(g <= a) by {
            if g > a {
                lemma_small_mod(a, g);
            }
        }
        assert(p % g != 0);
    }
}

/// Euclid's lemma: a prime dividing a product divides one of the factors.
pub proof fn lemma_euclid(p: nat, a: nat, b: nat)
    requires
        is_prime(p),
        (a * b) % p == 0,
        a % p != 0,
    ensures
        b % p == 0,
{
    let r = a % p;
    lemma_mod_bound(a as int, p as int);
    lemma_gcd_prime(r, p);
    let (s, t) = lemma_bezout(r, p);
    lemma_fundamental_div_mod(a as int, p as int);
    let q = a / p;
    lemma_fundamental_div_mod((a * b) as int, p as int);
    let k = (a * b) / p;
    // b = r b s + p b t and r b = a b - p q b = p (k - q b)
    assert(b == p * (k * s - q * b * s + b * t)) by (nonlinear_arith)
        requires
            r * s + p * t == 1,
            a == p * q + r,
            a * b == p * k,
    ;
    lemma_mod_multiples_basic(k * s - q * b * s + b * t, p as int);
    assert((k * s - q * b * s + b * t) * p == p * (k * s - q * b * s + b * t)) by (nonlinear_arith);
}

/// Divisibility is transitive.
pub proof fn lemma_divides_trans(a: nat, b: nat, c: nat)
    requires
        a > 0,
        b > 0,
        b % a == 0,
        c % b == 0,
    ensures
        c % a == 0,
{
    lemma_fundamental_div_mod(b as int, a as int);
    lemma_fundamental_div_mod(c as int, b as int);
    let x = b / a;
    let y = c / b;
    assert(c == a * (x * y)) by (nonlinear_arith)
        requires
            b == a * x,
            c == b * y,
    ;
    assert(x * y >= 0) by (nonlinear_arith)
        requires
            x >= 0,
            y >= 0,
    ;
    lemma_mod_multiples_basic((x * y) as int, a as int);
    assert((x * y) * a == a * (x * y)) by (nonlinear_arith);
}

/// The least divisor `d >= 2` of `n` is prime.
pub proof fn lemma_least_divisor_prime(n: nat, d: nat)
    requires
        d >= 2,
        n > 0,
        n % d == 0,
        forall|k: nat| 2 <= k < d ==> #[trigger] (n % k) != 0,
    ensures
        is_prime(d),
{
    assert forall|k: nat| 1 < k < d implies #[trigger] (d % k) != 0 by {
        if d % k == 0 {
            lemma_divides_trans(k, d, n);
            assert(n % k != 0);
        }
    }
}

/// An `n >= 2` with no divisor in `2..d`, where `d * d > n`, is prime.
pub proof fn lemma_no_small_divisor_prime(n: nat, d: nat)
    requires
        n >= 2,
        d * d > n,
        forall|k: nat| 2 <= k < d ==> #[trigger] (n % k) != 0,
    ensures
        is_prime(n),
{
    assert forall|k: nat| 1 < k < n implies #[trigger] (n % k) != 0 by {
        if n % k == 0 {
            lemma_fundamental_div_mod(n as int, k as int);
            let j = n / k;
            assert(n == k * j);
            assert(j >= 2) by (nonlinear_arith)
                requires
                    n == k * j,
                    k < n,
                    j >= 0,
            ;
            lemma_mod_multiples_basic(k as int, j as int);
            assert(k * j == j * k) by (nonlinear_arith);
            assert(n % j == 0);
            if k < d {
                assert(n % k != 0);
            } else {
                assert(j < d) by (nonlinear_arith)
                    requires
                        n == k * j,
                        k >= d,
                        d * d > n,
                        j >= 0,
                ;
                assert(n % j != 0);
            }
        }
    }
}

/// Greatest common divisor of two integers (`gcd(a, 0) == a`).
pub fn gcd(a: u64, b: u64) -> (g: u64)
    ensures
        g == gcd_spec(a as nat, b as nat),
{
    let mut a = a;
    let mut b = b;
    let ghost a0 = a;
    let ghost b0 = b;
    while b != 0
        invariant
            gcd_spec(a as nat, b as nat) == gcd_spec(a0 as nat, b0 as nat),
        decreases b,
    {
        let t = b;
        b = a % b;
        a = t;
    }
    a
}


/// `a == b (mod m)`.
pub open spec fn cong(a: int, b: int, m: int) -> bool {
    (a - b) % m == 0
}

/// `x % m == 0` exactly when `x` is a multiple of `m`.
proof fn lemma_mod_zero_mult(x: int, m: int, q: int)
    requires
        m > 0,
        x == m * q,
    ensures
        x % m == 0,
{
    lemma_mod_multiples_basic(q, m);
    assert(q * m == m * q) by (nonlinear_arith);
}

/// A multiple of `m` from `x % m == 0`.
proof fn lemma_mod_zero_quot(x: int, m: int)
    requires
        m > 0,
        x % m == 0,
    ensures
        x == m * (x / m),
{
    lemma_fundamental_div_mod(x, m);
}

/// `a == a % m (mod m)`.
pub proof fn lemma_cong_mod(a: int, m: int)
    requires
        m > 0,
    ensures
        cong(a, a % m, m),
        cong(a % m, a, m),
{
    lemma_fundamental_div_mod(a, m);
    lemma_mod_zero_mult(a - a % m, m, a / m);
    assert(a % m - a == m * (-(a / m))) by (nonlinear_arith)
        requires
            a == m * (a / m) + a % m,
    ;
    lemma_mod_zero_mult(a % m - a, m, -(a / m));
}

/// Congruence is transitive.
pub proof fn lemma_cong_trans(a: int, b: int, c: int, m: int)
    requires
        m > 0,
        cong(a, b, m),
        cong(b, c, m),
    ensures
        cong(a, c, m),
{
    lemma_mod_zero_quot(a - b, m);
    lemma_mod_zero_quot(b - c, m);
    let q1 = (a - b) / m;
    let q2 = (b - c) / m;
    assert(a - c == m * (q1 + q2)) by (nonlinear_arith)
        requires
            a - b == m * q1,
            b - c == m * q2,
    ;
    lemma_mod_zero_mult(a - c, m, q1 + q2);
}

/// Congruence is symmetric.
pub proof fn lemma_cong_symm(a: int, b: int, m: int)
    requires
        m > 0,
        cong(a, b, m),
    ensures
        cong(b, a, m),
{
    lemma_mod_zero_quot(a - b, m);
    let q = (a - b) / m;
    assert(b - a == m * (-q)) by (nonlinear_arith)
        requires
            a - b == m * q,
    ;
    lemma_mod_zero_mult(b - a, m, -q);
}

/// Congruences multiply by a common factor.
pub proof fn lemma_cong_mul(a: int, b: int, k: int, m: int)
    requires
        m > 0,
        cong(a, b, m),
    ensures
        cong(a * k, b * k, m),
{
    lemma_mod_zero_quot(a - b, m);
    let q = (a - b) / m;
    assert(a * k - b * k == m * (q * k)) by (nonlinear_arith)
        requires
            a - b == m * q,
    ;
    lemma_mod_zero_mult(a * k - b * k, m, q * k);
}

/// Congruences add.
pub proof fn lemma_cong_add(a: int, b: int, c: int, d: int, m: int)
    requires
        m > 0,
        cong(a, b, m),
        cong(c, d, m),
    ensures
        cong(a + c, b + d, m),
        cong(a - c, b - d, m),
{
    lemma_mod_zero_quot(a - b, m);
    lemma_mod_zero_quot(c - d, m);
    let q1 = (a - b) / m;
    let q2 = (c - d) / m;
    assert((a + c) - (b + d) == m * (q1 + q2)) by (nonlinear_arith)
        requires
            a - b == m * q1,
            c - d == m * q2,
    ;
    assert((a - c) - (b - d) == m * (q1 - q2)) by (nonlinear_arith)
        requires
            a - b == m * q1,
            c - d == m * q2,
    ;
    lemma_mod_zero_mult((a + c) - (b + d), m, q1 + q2);
    lemma_mod_zero_mult((a - c) - (b - d), m, q1 - q2);
}

/// A multiple of `m` is congruent to zero.
pub proof fn lemma_cong_multiple(k: int, m: int)
    requires
        m > 0,
    ensures
        cong(k * m, 0, m),
{
    assert(k * m - 0 == m * k) by (nonlinear_arith);
    lemma_mod_zero_mult(k * m - 0, m, k);
}

/// Two residues in `[0, m)` that are congruent are equal.
pub proof fn lemma_cong_small(a: int, b: int, m: int)
    requires
        m > 0,
        cong(a, b, m),
        0 <= a < m,
        0 <= b < m,
    ensures
        a == b,
{
    lemma_mod_zero_quot(a - b, m);
    let q = (a - b) / m;
    assert(q == 0) by (nonlinear_arith)
        requires
            a - b == m * q,
            -m < a - b < m,
    ;
}

/// A value in `[0, m)` congruent to `a` is `a % m`.
pub proof fn lemma_cong_is_mod(a: int, r: int, m: int)
    requires
        m > 0,
        cong(a, r, m),
        0 <= r < m,
    ensures
        a % m == r,
{
    lemma_cong_mod(a, m);
    lemma_cong_symm(a, a % m, m);
    lemma_cong_symm(a, r, m);
    lemma_cong_trans(a % m, a, r, m);
    lemma_mod_bound(a, m);
    lemma_cong_small(a % m, r, m);
}


/// `p[0] * p[1] * ... * p[k - 1]`.
pub open spec fn prefix_product(p: Seq<u64>, k: int) -> nat
    decreases k,
{
    if k <= 0 {
        1
    } else {
        prefix_product(p, k - 1) * (p[k - 1] as nat)
    }
}

/// The mixed-radix value `sum_{m < k} c[m] * p[0] * ... * p[m - 1]`.
pub open spec fn garner_sum(p: Seq<u64>, c: Seq<u64>, k: int) -> nat
    decreases k,
{
    if k <= 0 {
        0
    } else {
        garner_sum(p, c, k - 1) + (c[k - 1] as nat) * prefix_product(p, k - 1)
    }
}

/// A basis: at least one modulus, each greater than one, pairwise coprime.
pub open spec fn valid_basis(p: Seq<u64>) -> bool {
    &&& p.len() > 0
    &&& forall|i: int| 0 <= i < p.len() ==> #[trigger] p[i] > 1
    &&& forall|i: int, j: int|
        0 <= i < j < p.len() ==> #[trigger] gcd_spec(p[i] as nat, p[j] as nat) == 1
}

/// Residues reduced modulo the corresponding moduli.
pub open spec fn valid_residues(p: Seq<u64>, r: Seq<u64>) -> bool {
    r.len() == p.len() && forall|i: int| 0 <= i < p.len() ==> #[trigger] r[i] < p[i]
}

/// Prefix products of moduli greater than one are positive.
pub proof fn lemma_prefix_product_pos(p: Seq<u64>, k: int)
    requires
        0 <= k <= p.len(),
        forall|i: int| 0 <= i < p.len() ==> #[trigger] p[i] > 1,
    ensures
        prefix_product(p, k) >= 1,
    decreases k,
{
    if k > 0 {
        lemma_prefix_product_pos(p, k - 1);
        assert(p[k - 1] > 1);
        let q = prefix_product(p, k - 1);
        assert(q * (p[k - 1] as nat) >= 1) by (nonlinear_arith)
            requires
                q >= 1,
                p[k - 1] >= 1,
        ;
    }
}

/// Prefix products of moduli greater than one are positive and grow.
pub proof fn lemma_prefix_product_mono(p: Seq<u64>, j: int, k: int)
    requires
        0 <= j <= k <= p.len(),
        forall|i: int| 0 <= i < p.len() ==> #[trigger] p[i] > 1,
    ensures
        1 <= prefix_product(p, j) <= prefix_product(p, k),
    decreases k - j,
{
    lemma_prefix_product_pos(p, j);
    if j < k {
        lemma_prefix_product_mono(p, j, k - 1);
        lemma_prefix_product_pos(p, k - 1);
        assert(p[k - 1] > 1);
        let q = prefix_product(p, k - 1);
        assert(q * (p[k - 1] as nat) >= q) by (nonlinear_arith)
            requires
                q >= 1,
                p[k - 1] >= 1,
        ;
    }
}

/// Every modulus below `k` divides the prefix product up to `k`.
pub proof fn lemma_prefix_product_divisible(p: Seq<u64>, i: int, k: int)
    requires
        0 <= i < k <= p.len(),
        forall|m: int| 0 <= m < p.len() ==> #[trigger] p[m] > 1,
    ensures
        cong(prefix_product(p, k) as int, 0, p[i] as int),
    decreases k,
{
    let pi = p[i] as int;
    if k == i + 1 {
        lemma_cong_multiple(prefix_product(p, i) as int, pi);
    } else {
        lemma_prefix_product_divisible(p, i, k - 1);
        lemma_cong_mul(prefix_product(p, k - 1) as int, 0, p[k - 1] as int, pi);
        assert(0 * (p[k - 1] as int) == 0);
    }
}

/// Terms beyond index `i` do not change the sum modulo `p[i]`.
pub proof fn lemma_garner_tail(p: Seq<u64>, c: Seq<u64>, i: int, k: int)
    requires
        0 <= i < k <= p.len(),
        forall|m: int| 0 <= m < p.len() ==> #[trigger] p[m] > 1,
    ensures
        cong(garner_sum(p, c, k) as int, garner_sum(p, c, i + 1) as int, p[i] as int),
    decreases k,
{
    let pi = p[i] as int;
    if k == i + 1 {
        lemma_cong_mod(garner_sum(p, c, k) as int, pi);
        lemma_cong_trans(
            garner_sum(p, c, k) as int,
            garner_sum(p, c, k) as int % pi,
            garner_sum(p, c, k) as int,
            pi,
        );
    } else {
        lemma_garner_tail(p, c, i, k - 1);
        lemma_prefix_product_divisible(p, i, k - 1);
        lemma_cong_mul(prefix_product(p, k - 1) as int, 0, c[k - 1] as int, pi);
        assert(prefix_product(p, k - 1) * (c[k - 1] as int) == (c[k - 1] as nat) * prefix_product(
            p,
            k - 1,
        )) by (nonlinear_arith);
        assert(0 * (c[k - 1] as int) == 0);
        lemma_cong_add(
            garner_sum(p, c, k - 1) as int,
            garner_sum(p, c, i + 1) as int,
            (c[k - 1] as nat * prefix_product(p, k - 1)) as int,
            0,
            pi,
        );
    }
}

/// With every digit below its modulus, the mixed-radix value is below the
/// prefix product.
pub proof fn lemma_garner_bound(p: Seq<u64>, c: Seq<u64>, k: int)
    requires
        0 <= k <= p.len(),
        k <= c.len(),
        forall|m: int| 0 <= m < k ==> #[trigger] c[m] < p[m],
    ensures
        garner_sum(p, c, k) < prefix_product(p, k),
    decreases k,
{
    if k > 0 {
        lemma_garner_bound(p, c, k - 1);
        let s = garner_sum(p, c, k - 1);
        let q = prefix_product(p, k - 1);
        let d = c[k - 1] as nat;
        let pk = p[k - 1] as nat;
        assert(s + d * q < q * pk) by (nonlinear_arith)
            requires
                s < q,
                d + 1 <= pk,
        ;
    }
}


/// Appending a digit does not change the mixed-radix value of a prefix.
pub proof fn lemma_garner_sum_push(p: Seq<u64>, c: Seq<u64>, x: u64, k: int)
    requires
        0 <= k <= c.len(),
    ensures
        garner_sum(p, c.push(x), k) == garner_sum(p, c, k),
    decreases k,
{
    if k > 0 {
        lemma_garner_sum_push(p, c, x, k - 1);
        assert(c.push(x)[k - 1] == c[k - 1]);
    }
}

/// One inner step of Garner's algorithm: from `u * P_j == r - S_j (mod m)`,
/// the next digit candidate `u2 = (u - c_j) * p_j^{-1} mod m` satisfies
/// `u2 * P_{j+1} == r - S_{j+1} (mod m)`.
proof fn lemma_garner_step(
    u: int,
    d: int,
    inv: int,
    u2: int,
    cj: int,
    pj: int,
    big_pj: int,
    sj: int,
    r: int,
    m: int,
)
    requires
        m > 1,
        cong(u * big_pj, r - sj, m),
        cong(d, u - cj, m),
        cong(pj * inv, 1, m),
        u2 == (d * inv) % m,
    ensures
        cong(u2 * (big_pj * pj), r - (sj + cj * big_pj), m),
{
    let k = big_pj * pj;
    // u2 == d * inv
    lemma_cong_mod(d * inv, m);
    lemma_cong_mul(u2, d * inv, k, m);
    // d * inv * (P_j * p_j) == d * P_j * (p_j * inv)
    assert((d * inv) * k == (d * big_pj) * (pj * inv)) by (nonlinear_arith)
        requires
            k == big_pj * pj,
    ;
    lemma_cong_mul(pj * inv, 1, d * big_pj, m);
    assert((pj * inv) * (d * big_pj) == (d * big_pj) * (pj * inv)) by (nonlinear_arith);
    assert(1 * (d * big_pj) == d * big_pj);
    lemma_cong_trans(u2 * k, (d * inv) * k, d * big_pj, m);
    // d * P_j == (u - c_j) * P_j == u * P_j - c_j * P_j
    lemma_cong_mul(d, u - cj, big_pj, m);
    assert((u - cj) * big_pj == u * big_pj - cj * big_pj) by (nonlinear_arith);
    lemma_cong_trans(u2 * k, d * big_pj, u * big_pj - cj * big_pj, m);
    lemma_small_mod(0, m as nat);
    assert(cong(cj * big_pj, cj * big_pj, m));
    lemma_cong_add(u * big_pj, r - sj, cj * big_pj, cj * big_pj, m);
    lemma_cong_trans(u2 * k, u * big_pj - cj * big_pj, (r - sj) - cj * big_pj, m);
}


/// Bezout's identity: `a * s + b * t == gcd(a, b)` for some integers `s, t`.
pub proof fn lemma_bezout(a: nat, b: nat) -> (st: (int, int))
    ensures
        a * st.0 + b * st.1 == gcd_spec(a, b),
    decreases b,
{
    if b == 0 {
        (1, 0)
    } else {
        let (s1, t1) = lemma_bezout(b, a % b);
        lemma_fundamental_div_mod(a as int, b as int);
        let q = a as int / b as int;
        let r = a as int % b as int;
        assert(a * t1 + b * (s1 - q * t1) == b * s1 + r * t1) by (nonlinear_arith)
            requires
                a == b * q + r,
        ;
        (t1, s1 - q * t1)
    }
}

/// If `a * s + b * t == 1` then `gcd(a, b) == 1`.
pub proof fn lemma_gcd_one_from_bezout(a: nat, b: nat, s: int, t: int)
    requires
        a > 0 || b > 0,
        a * s + b * t == 1,
    ensures
        gcd_spec(a, b) == 1,
{
    lemma_gcd_divides(a, b);
    let g = gcd_spec(a, b) as int;
    lemma_mod_zero_quot(a as int, g);
    lemma_mod_zero_quot(b as int, g);
    let qa = a as int / g;
    let qb = b as int / g;
    assert(1 == g * (qa * s + qb * t)) by (nonlinear_arith)
        requires
            a == g * qa,
            b == g * qb,
            a * s + b * t == 1,
    ;
    assert(g == 1) by (nonlinear_arith)
        requires
            1 == g * (qa * s + qb * t),
            g > 0,
    ;
}

/// Coprime divisors of `d` divide it jointly.
pub proof fn lemma_coprime_divides(a: nat, b: nat, d: int)
    requires
        a > 0,
        b > 0,
        gcd_spec(a, b) == 1,
        cong(d, 0, a as int),
        cong(d, 0, b as int),
    ensures
        cong(d, 0, (a * b) as int),
{
    let (s, t) = lemma_bezout(a, b);
    lemma_mod_zero_quot(d, a as int);
    lemma_mod_zero_quot(d, b as int);
    let k1 = d / (a as int);
    let k2 = d / (b as int);
    assert(d - 0 == (a * b) * (k2 * s + k1 * t)) by (nonlinear_arith)
        requires
            a * s + b * t == 1,
            d == a * k1,
            d == b * k2,
    ;
    assert((a * b) as int > 0) by (nonlinear_arith)
        requires
            a > 0,
            b > 0,
    ;
    lemma_mod_zero_mult(d - 0, (a * b) as int, k2 * s + k1 * t);
}

/// A product of factors coprime to `b` is coprime to `b`.
pub proof fn lemma_coprime_mul(a: nat, c: nat, b: nat)
    requires
        b > 0,
        gcd_spec(a, b) == 1,
        gcd_spec(c, b) == 1,
    ensures
        gcd_spec(a * c, b) == 1,
{
    let (s1, t1) = lemma_bezout(a, b);
    let (s2, t2) = lemma_bezout(c, b);
    assert((a * c) * (s1 * s2) + b * (t1 + t2 - b * t1 * t2) == 1) by (nonlinear_arith)
        requires
            a * s1 + b * t1 == 1,
            c * s2 + b * t2 == 1,
    ;
    lemma_gcd_one_from_bezout(a * c, b, s1 * s2, t1 + t2 - b * t1 * t2);
}

/// `gcd` is symmetric on values that are not both zero.
pub proof fn lemma_gcd_symm(a: nat, b: nat)
    requires
        a > 0 || b > 0,
    ensures
        gcd_spec(a, b) == gcd_spec(b, a),
{
    lemma_gcd_divides(a, b);
    lemma_gcd_divides(b, a);
    let g1 = gcd_spec(a, b);
    let g2 = gcd_spec(b, a);
    // each divides the other
    assert(g1 % g2 == 0);
    assert(g2 % g1 == 0);
    lemma_mod_zero_quot(g1 as int, g2 as int);
    lemma_mod_zero_quot(g2 as int, g1 as int);
    let q1 = g1 as int / g2 as int;
    let q2 = g2 as int / g1 as int;
    assert(g1 == g2) by (nonlinear_arith)
        requires
            g1 == g2 * q1,
            g2 == g1 * q2,
            g1 > 0,
            g2 > 0,
    ;
}

/// The prefix product below `k` is coprime to the modulus at `k`.
pub proof fn lemma_prefix_coprime(p: Seq<u64>, k: int)
    requires
        valid_basis(p),
        0 <= k < p.len(),
    ensures
        gcd_spec(prefix_product(p, k), p[k] as nat) == 1,
    decreases k,
{
    assert(p[k] > 1);
    if k == 0 {
        assert(prefix_product(p, 0) == 1);
        lemma_gcd_one_from_bezout(1, p[k] as nat, 1, 0);
    } else {
        lemma_prefix_coprime_to(p, k - 1, k);
    }
}

/// The prefix product up to `j + 1` is coprime to any later modulus `p[k]`.
proof fn lemma_prefix_coprime_to(p: Seq<u64>, j: int, k: int)
    requires
        valid_basis(p),
        0 <= j < k < p.len(),
    ensures
        gcd_spec(prefix_product(p, j + 1), p[k] as nat) == 1,
    decreases j,
{
    assert(p[k] > 1);
    assert(gcd_spec(p[j] as nat, p[k] as nat) == 1);
    if j == 0 {
        assert(prefix_product(p, 0) == 1);
        assert(prefix_product(p, 1) == 1 * (p[0] as nat));
    } else {
        lemma_prefix_coprime_to(p, j - 1, k);
        lemma_coprime_mul(prefix_product(p, j), p[j] as nat, p[k] as nat);
    }
}

/// Every prefix product divides the difference of two values with the same residues.
proof fn lemma_prefix_divides_difference(p: Seq<u64>, x: nat, y: nat, k: int)
    requires
        valid_basis(p),
        0 <= k <= p.len(),
        forall|i: int| 0 <= i < p.len() ==> #[trigger] (x % (p[i] as nat)) == y % (p[i] as nat),
    ensures
        cong(x - y, 0, prefix_product(p, k) as int),
    decreases k,
{
    let d = x - y;
    if k == 0 {
        lemma_mod_zero_mult(d - 0, 1, d);
    } else {
        let j = k - 1;
        lemma_prefix_divides_difference(p, x, y, j);
        let pj = p[j] as int;
        assert(p[j] > 1);
        assert(x % (p[j] as nat) == y % (p[j] as nat));
        lemma_cong_mod(x as int, pj);
        lemma_cong_mod(y as int, pj);
        lemma_cong_trans(x as int, x as int % pj, y as int, pj);
        lemma_mod_zero_mult(d - 0, 1, d);
        assert(cong(d, 0, pj)) by {
            assert(d - 0 == (x as int) - (y as int));
        }
        lemma_prefix_coprime(p, j);
        lemma_prefix_product_pos(p, j);
        lemma_coprime_divides(prefix_product(p, j), p[j] as nat, d);
    }
}

/// Chinese remaindering, existence: residues below pairwise coprime moduli have a
/// common representative below the product of the first `k` moduli.
pub proof fn lemma_crt_exists(p: Seq<u64>, r: Seq<u64>, k: int) -> (x: nat)
    requires
        valid_basis(p),
        valid_residues(p, r),
        0 <= k <= p.len(),
    ensures
        x < prefix_product(p, k),
        forall|i: int| 0 <= i < k ==> #[trigger] (x % (p[i] as nat)) == r[i],
    decreases k,
{
    if k == 0 {
        0
    } else {
        let k1 = k - 1;
        let x0 = lemma_crt_exists(p, r, k1);
        let pk = prefix_product(p, k1);
        let m = p[k1] as nat;
        assert(m > 1);
        lemma_prefix_product_pos(p, k1);
        lemma_prefix_coprime(p, k1);
        let (s, t) = lemma_bezout(pk, m);
        let rk = r[k1] as int;
        let delta: int = (rk - x0 as int) * s;
        lemma_fundamental_div_mod(delta, m as int);
        vstd::arithmetic::div_mod::lemma_mod_bound(delta, m as int);
        let q = delta / (m as int);
        let u: nat = (delta % (m as int)) as nat;
        let x: nat = x0 + pk * u;
        let kk: int = -(pk as int) * q - (rk - x0 as int) * t;
        let d0: int = rk - x0 as int;
        let a1: int = (pk * u) as int;
        let a2: int = pk * delta;
        let a3: int = (pk * m) * q;
        let a4: int = m * (t * d0);
        assert(a1 == a2 - a3) by (nonlinear_arith)
            requires
                u as int == delta - m * q,
                a1 == pk * u,
                a2 == pk * delta,
                a3 == (pk * m) * q,
        ;
        assert(a2 == d0 - a4) by (nonlinear_arith)
            requires
                pk * s + m * t == 1,
                delta == d0 * s,
                a2 == pk * delta,
                a4 == m * (t * d0),
        ;
        assert(m * kk == -a3 - a4) by (nonlinear_arith)
            requires
                kk == -(pk as int) * q - d0 * t,
                a3 == (pk * m) * q,
                a4 == m * (t * d0),
        ;
        assert(x as int == rk + m * kk);
        assert(x < pk * m) by (nonlinear_arith)
            requires
                x == x0 + pk * u,
                x0 < pk,
                u < m,
        ;
        assert(prefix_product(p, k) == pk * m);
        assert(rk < m);
        vstd::arithmetic::div_mod::lemma_fundamental_div_mod_converse(x as int, m as int, kk, rk);
        assert forall|i: int| 0 <= i < k implies #[trigger] (x % (p[i] as nat)) == r[i] by {
            if i < k1 {
                let pi = p[i] as nat;
                assert(pi > 1);
                lemma_prefix_product_divisible(p, i, k1);
                lemma_fundamental_div_mod(pk as int, pi as int);
                let c = pk as int / (pi as int);
                assert(pk as int == pi * c);
                assert(x as int == pi * (c * u) + x0) by (nonlinear_arith)
                    requires
                        x as int == x0 + pk * u,
                        pk as int == pi * c,
                ;
                vstd::arithmetic::div_mod::lemma_mod_multiples_vanish(c * u, x0 as int, pi as int);
            }
        }
        x
    }
}

/// Chinese remainder uniqueness: two values below the modulus of a basis with
/// the same residues are equal. With [`RnsBasis::reconstruct`]'s contract this
/// gives `reconstruct(decompose(x)) == x` for every `x` below the modulus.
pub proof fn lemma_crt_unique(p: Seq<u64>, x: nat, y: nat)
    requires
        valid_basis(p),
        x < prefix_product(p, p.len() as int),
        y < prefix_product(p, p.len() as int),
        forall|i: int| 0 <= i < p.len() ==> #[trigger] (x % (p[i] as nat)) == y % (p[i] as nat),
    ensures
        x == y,
{
    lemma_prefix_divides_difference(p, x, y, p.len() as int);
    let d = x - y;
    let m = prefix_product(p, p.len() as int) as int;
    lemma_mod_zero_quot(d - 0, m);
    let q = (d - 0) / m;
    assert(q == 0) by (nonlinear_arith)
        requires
            d - 0 == m * q,
            -m < d < m,
    ;
    assert(m * q == 0) by (nonlinear_arith)
        requires
            q == 0,
    ;
}

/// An RNS basis: a set of pairwise-coprime moduli for RNS representation.
///
/// Each element is represented as a vector of residues, one per basis modulus.
/// This enables component-wise arithmetic without carries.
#[derive(Clone, Debug)]
pub struct RnsBasis {
    /// The component moduli forming the RNS basis.
    pub primes: Vec<u64>,
    /// Cached `2^64 mod p_i` values for Horner-style decomposition.
    radix_mods: Vec<u64>,
}

/// The sum of two residues as computed limb by limb: one conditional
/// subtraction of the modulus, wrapping at `2^64`.
pub open spec fn rns_add_limb(a: u64, b: u64, p: u64) -> u64 {
    if a + b >= p {
        ((a + b - p) % 0x1_0000_0000_0000_0000) as u64
    } else {
        (a + b) as u64
    }
}

/// The difference of two residues as computed limb by limb.
pub open spec fn rns_sub_limb(a: u64, b: u64, p: u64) -> u64 {
    if a >= b {
        (a - b) as u64
    } else {
        (p - b + a) as u64
    }
}

/// For reduced residues the limb operations are addition and subtraction
/// modulo `p`.
pub proof fn lemma_rns_limb_ops(a: u64, b: u64, p: u64)
    requires
        a < p,
        b < p,
    ensures
        rns_add_limb(a, b, p) == (a + b) % (p as int),
        rns_sub_limb(a, b, p) == (a - b) % (p as int),
{
    if a + b >= p {
        lemma_small_mod((a + b - p) as nat, 0x1_0000_0000_0000_0000);
        vstd::arithmetic::div_mod::lemma_fundamental_div_mod_converse(a + b, p as int, 1, a + b - p);
    } else {
        lemma_small_mod((a + b) as nat, p as nat);
    }
    if a >= b {
        lemma_small_mod((a - b) as nat, p as nat);
    } else {
        vstd::arithmetic::div_mod::lemma_fundamental_div_mod_converse(a - b, p as int, -1, p - b + a);
    }
}

impl View for RnsBasis {
    type V = Seq<u64>;

    /// The moduli of the basis.
    closed spec fn view(&self) -> Seq<u64> {
        self.primes@
    }
}

impl RnsBasis {
    /// The basis is valid and the cached radix residues match it.
    pub closed spec fn wf(&self) -> bool {
        &&& valid_basis(self@)
        &&& self.radix_mods@.len() == self@.len()
        &&& forall|i: int|
            0 <= i < self@.len() ==> #[trigger] self.radix_mods@[i] as nat
                == 0x1_0000_0000_0000_0000nat % (self@[i] as nat)
    }

    /// A well-formed basis has valid moduli.
    pub proof fn lemma_wf(&self)
        requires
            self.wf(),
        ensures
            valid_basis(self@),
    {
    }

    /// The composite modulus `M = p_0 * ... * p_{k-1}`.
    pub open spec fn modulus_spec(&self) -> nat {
        prefix_product(self@, self@.len() as int)
    }

    /// Whether `primes` is a valid basis: non-empty, every modulus above one,
    /// and the moduli pairwise coprime.
    pub fn is_valid_basis(primes: &Vec<u64>) -> (b: bool)
        ensures
            b == valid_basis(primes@),
    {
        let n = primes.len();
        if n == 0 {
            return false;
        }
        let mut i: usize = 0;
        while i < n
            invariant
                n == primes@.len(),
                i <= n,
                forall|k: int| 0 <= k < i ==> #[trigger] primes@[k] > 1,
            decreases n - i,
        {
            if primes[i] <= 1 {
                return false;
            }
            i = i + 1;
        }
        let mut i: usize = 0;
        while i < n
            invariant
                n == primes@.len(),
                i <= n,
                forall|a: int, b: int|
                    0 <= a < i && a < b < n ==> #[trigger] gcd_spec(primes@[a] as nat, primes@[b] as nat)
                        == 1,
            decreases n - i,
        {
            let mut j: usize = i + 1;
            while j < n
                invariant
                    n == primes@.len(),
                    i < n,
                    i < j <= n,
                    forall|a: int, b: int|
                        0 <= a < i && a < b < n ==> #[trigger] gcd_spec(
                            primes@[a] as nat,
                            primes@[b] as nat,
                        ) == 1,
                    forall|b: int| i < b < j ==> #[trigger] gcd_spec(primes@[i as int] as nat, primes@[b] as nat)
                        == 1,
                decreases n - j,
            {
                if gcd(primes[i], primes[j]) != 1 {
                    return false;
                }
                j = j + 1;
            }
            i = i + 1;
        }
        true
    }

    /// Create a new RNS basis from a list of pairwise-coprime moduli.
    pub fn new(primes: Vec<u64>) -> (r: Self)
        requires
            valid_basis(primes@),
        ensures
            r.wf(),
            r@ == primes@,
    {
        let n = primes.len();
        let mut radix_mods: Vec<u64> = Vec::new();
        let mut i: usize = 0;
        while i < n
            invariant
                n == primes@.len(),
                i <= n,
                valid_basis(primes@),
                radix_mods@.len() == i,
                forall|k: int|
                    0 <= k < i ==> #[trigger] radix_mods@[k] as nat == 0x1_0000_0000_0000_0000nat
                        % (primes@[k] as nat),
            decreases n - i,
        {
            let p = primes[i];
            proof {
                assert(primes@[i as int] > 1);
            }
            let m = (0x1_0000_0000_0000_0000u128 % (p as u128)) as u64;
            radix_mods.push(m);
            i = i + 1;
        }
        RnsBasis { primes, radix_mods }
    }

    /// The moduli of the basis.
    pub fn moduli(&self) -> (r: &Vec<u64>)
        ensures
            r@ == self@,
    {
        &self.primes
    }

    /// Number of limbs (moduli) in this basis.
    pub fn num_limbs(&self) -> (r: usize)
        ensures
            r == self@.len(),
    {
        self.primes.len()
    }

    /// Decompose a value into RNS representation: `[x mod p_0, x mod p_1, ...]`.
    pub fn decompose(&self, x: u64) -> (r: Vec<u64>)
        requires
            self.wf(),
        ensures
            r@.len() == self@.len(),
            forall|i: int| 0 <= i < r@.len() ==> #[trigger] r@[i] == x % self@[i],
    {
        let n = self.primes.len();
        let mut out: Vec<u64> = Vec::new();
        let mut i: usize = 0;
        while i < n
            invariant
                n == self@.len(),
                i <= n,
                valid_basis(self@),
                out@.len() == i,
                forall|k: int| 0 <= k < i ==> #[trigger] out@[k] == x % self@[k],
            decreases n - i,
        {
            proof {
                assert(self@[i as int] > 1);
            }
            out.push(x % self.primes[i]);
            i = i + 1;
        }
        out
    }

    /// Decompose a fixed-limb integer into RNS representation, reducing its
    /// limbs from the most significant down (Horner's rule in radix `2^64`).
    pub fn decompose_biguint<const N: usize>(&self, x: &BigUint<N>) -> (r: Vec<u64>)
        requires
            self.wf(),
        ensures
            r@.len() == self@.len(),
            forall|i: int|
                0 <= i < r@.len() ==> #[trigger] r@[i] as nat == x.value() % (self@[i] as nat),
    {
        let n = self.primes.len();
        let mut out: Vec<u64> = Vec::new();
        let mut i: usize = 0;
        while i < n
            invariant
                n == self@.len(),
                i <= n,
                self.wf(),
                out@.len() == i,
                forall|k: int|
                    0 <= k < i ==> #[trigger] out@[k] as nat == x.value() % (self@[k] as nat),
            decreases n - i,
        {
            let prime = self.primes[i];
            let radix_mod = self.radix_mods[i];
            proof {
                assert(prime > 1);
                assert(radix_mod as nat == 0x1_0000_0000_0000_0000nat % (prime as nat));
            }
            let mut acc: u64 = 0;
            let mut k: usize = N;
            proof {
                assert(x.limbs@.skip(N as int).len() == 0);
                assert(limbs_value(x.limbs@.skip(N as int)) == 0);
                lemma_small_mod(0, prime as nat);
            }
            while k > 0
                invariant
                    k <= N,
                    prime > 1,
                    radix_mod < prime,
                    radix_mod as nat == 0x1_0000_0000_0000_0000nat % (prime as nat),
                    acc < prime,
                    acc as nat == limbs_value(x.limbs@.skip(k as int)) % (prime as nat),
                decreases k,
            {
                k = k - 1;
                let limb = x.limbs[k];
                proof {
                    assert(acc * radix_mod < 0x1_0000_0000_0000_0000 * 0x1_0000_0000_0000_0000)
                        by (nonlinear_arith)
                        requires
                            acc < 0x1_0000_0000_0000_0000,
                            radix_mod < 0x1_0000_0000_0000_0000,
                    ;
                    assert(acc * radix_mod + limb < 0x1_0000_0000_0000_0000 * 0x1_0000_0000_0000_0000)
                        by (nonlinear_arith)
                        requires
                            acc <= 0xffff_ffff_ffff_fffe,
                            radix_mod <= 0xffff_ffff_ffff_fffe,
                            limb <= 0xffff_ffff_ffff_ffff,
                    ;
                }
                let next = (((acc as u128) * (radix_mod as u128) + (limb as u128)) % (prime as u128)) as u64;
                proof {
                    let pi = prime as int;
                    let v = limbs_value(x.limbs@.skip(k + 1));
                    lemma_limbs_value_skip(x.limbs@, k as int);
                    // acc == v (mod p) and radix_mod == 2^64 (mod p)
                    lemma_cong_mod(v as int, pi);
                    lemma_cong_mod(0x1_0000_0000_0000_0000, pi);
                    lemma_cong_mul(acc as int, v as int, radix_mod as int, pi);
                    lemma_cong_mul(radix_mod as int, 0x1_0000_0000_0000_0000, v as int, pi);
                    assert(v * (radix_mod as int) == (radix_mod as int) * v) by (nonlinear_arith);
                    assert(0x1_0000_0000_0000_0000 * v == v * 0x1_0000_0000_0000_0000)
                        by (nonlinear_arith);
                    lemma_cong_trans(
                        acc as int * radix_mod as int,
                        v as int * radix_mod as int,
                        v as int * 0x1_0000_0000_0000_0000,
                        pi,
                    );
                    lemma_small_mod(0, prime as nat);
                    assert(cong(limb as int, limb as int, pi));
                    lemma_cong_add(
                        acc as int * radix_mod as int,
                        v as int * 0x1_0000_0000_0000_0000,
                        limb as int,
                        limb as int,
                        pi,
                    );
                    lemma_mod_bound(acc * radix_mod + limb, pi);
                    lemma_cong_mod(acc * radix_mod + limb, pi);
                    lemma_cong_symm(acc * radix_mod + limb, (acc * radix_mod + limb) % pi, pi);
                    lemma_cong_trans(
                        (acc * radix_mod + limb) % pi,
                        acc * radix_mod + limb,
                        v * 0x1_0000_0000_0000_0000 + limb,
                        pi,
                    );
                    lemma_cong_symm(
                        (acc * radix_mod + limb) % pi,
                        v * 0x1_0000_0000_0000_0000 + limb,
                        pi,
                    );
                    lemma_cong_is_mod(
                        v * 0x1_0000_0000_0000_0000 + limb,
                        (acc * radix_mod + limb) % pi,
                        pi,
                    );
                }
                acc = next;
            }
            proof {
                assert(x.limbs@.skip(0) =~= x.limbs@);
            }
            out.push(acc);
            i = i + 1;
        }
        out
    }

    /// Garner's mixed-radix digits of the value with the given residues:
    /// `x = c_0 + c_1 p_0 + c_2 p_0 p_1 + ...`.
    fn garner_coefficients(&self, residues: &[u64]) -> (c: Vec<u64>)
        requires
            self.wf(),
            valid_residues(self@, residues@),
        ensures
            c@.len() == self@.len(),
            forall|i: int| 0 <= i < c@.len() ==> #[trigger] c@[i] < self@[i],
            forall|i: int|
                0 <= i < c@.len() ==> cong(
                    #[trigger] garner_sum(self@, c@, i + 1) as int,
                    residues@[i] as int,
                    self@[i] as int,
                ),
    {
        let k = self.primes.len();
        let ghost p = self@;
        let mut coeffs: Vec<u64> = Vec::new();
        coeffs.push(residues[0]);
        proof {
            assert(p[0] > 1);
            assert(prefix_product(p, 0) == 1);
            assert(garner_sum(p, coeffs@, 0) == 0);
            assert((coeffs@[0] as nat) * 1 == coeffs@[0]);
            assert(garner_sum(p, coeffs@, 1) == residues@[0]);
            lemma_small_mod(0, p[0] as nat);
        }
        let mut i: usize = 1;
        while i < k
            invariant
                k == p.len(),
                p == self@,
                self.wf(),
                valid_basis(p),
                valid_residues(p, residues@),
                1 <= i <= k,
                coeffs@.len() == i,
                forall|m: int| 0 <= m < i ==> #[trigger] coeffs@[m] < p[m],
                forall|m: int|
                    0 <= m < i ==> cong(
                        #[trigger] garner_sum(p, coeffs@, m + 1) as int,
                        residues@[m] as int,
                        p[m] as int,
                    ),
            decreases k - i,
        {
            let p_i: u128 = self.primes[i] as u128;
            let mut u: u128 = residues[i] as u128;
            let ghost pi = p[i as int] as int;
            proof {
                assert(p[i as int] > 1);
                assert(prefix_product(p, 0) == 1);
                assert(garner_sum(p, coeffs@, 0) == 0);
                assert(u * 1 == u);
                lemma_small_mod(0, pi as nat);
            }
            let mut j: usize = 0;
            while j < i
                invariant
                    k == p.len(),
                    p == self@,
                    valid_basis(p),
                    i < k,
                    j <= i,
                    coeffs@.len() == i,
                    pi == p[i as int],
                    p_i == pi,
                    pi > 1,
                    u < 0x1_0000_0000_0000_0000,
                    j > 0 ==> u < pi,
                    cong(
                        u * prefix_product(p, j as int),
                        residues@[i as int] - garner_sum(p, coeffs@, j as int),
                        pi,
                    ),
                decreases i - j,
            {
                let cj = coeffs[j];
                let coeff_mod: u128 = (cj as u128) % p_i;
                let d: u128 = if u >= coeff_mod {
                    (u - coeff_mod) % p_i
                } else {
                    p_i - ((coeff_mod - u) % p_i)
                };
                proof {
                    lemma_mod_bound(cj as int, pi);
                    lemma_cong_mod(cj as int, pi);
                    if u >= coeff_mod {
                        lemma_cong_mod(u - coeff_mod, pi);
                        lemma_cong_symm(u - coeff_mod, (u - coeff_mod) % pi, pi);
                        lemma_mod_bound(u - coeff_mod, pi);
                    } else {
                        lemma_small_mod((coeff_mod - u) as nat, pi as nat);
                        lemma_small_mod(0, pi as nat);
                    }
                    // d == u - coeff_mod == u - c_j (mod p_i)
                    lemma_small_mod(0, pi as nat);
                    assert(cong(u as int, u as int, pi));
                    lemma_cong_add(u as int, u as int, coeff_mod as int, cj as int, pi);
                    if u < coeff_mod {
                        lemma_cong_multiple(1, pi);
                        assert(cong(d as int, u - coeff_mod, pi)) by {
                            assert(d - (u - coeff_mod) == pi);
                            lemma_mod_zero_mult(pi, pi, 1);
                        }
                    }
                    lemma_cong_trans(d as int, u - coeff_mod, u - cj, pi);
                    assert(gcd_spec(p[j as int] as nat, p[i as int] as nat) == 1);
                }
                let inv = mod_inv_u64(self.primes[j], self.primes[i]) as u128;
                proof {
                    assert(d < 0x1_0000_0000_0000_0000);
                    assert(d * inv < 0x1_0000_0000_0000_0000 * 0x1_0000_0000_0000_0000) by (nonlinear_arith)
                        requires
                            d < 0x1_0000_0000_0000_0000,
                            inv < 0x1_0000_0000_0000_0000,
                    ;
                }
                let u2 = (d * inv) % p_i;
                proof {
                    let pj = p[j as int] as int;
                    lemma_small_mod(1, pi as nat);
                    assert(cong(pj * inv, 1, pi)) by {
                        lemma_cong_mod(pj * inv, pi);
                    }
                    lemma_garner_step(
                        u as int,
                        d as int,
                        inv as int,
                        u2 as int,
                        cj as int,
                        pj,
                        prefix_product(p, j as int) as int,
                        garner_sum(p, coeffs@, j as int) as int,
                        residues@[i as int] as int,
                        pi,
                    );
                    assert(prefix_product(p, j + 1) == prefix_product(p, j as int) * (p[j as int] as nat));
                    assert(garner_sum(p, coeffs@, j + 1) == garner_sum(p, coeffs@, j as int) + (
                    coeffs@[j as int] as nat) * prefix_product(p, j as int));
                    assert((cj as int) * (prefix_product(p, j as int) as int) == (coeffs@[j as int] as nat)
                        * prefix_product(p, j as int));
                    lemma_mod_bound(d * inv, pi);
                }
                u = u2;
                j = j + 1;
            }
            let ci = u as u64;
            proof {
                let big_pi = prefix_product(p, i as int) as int;
                let si = garner_sum(p, coeffs@, i as int) as int;
                lemma_garner_sum_push(p, coeffs@, ci, i as int);
                let c2 = coeffs@.push(ci);
                assert(garner_sum(p, c2, i + 1) == garner_sum(p, c2, i as int) + (ci as nat) * prefix_product(p, i as int));
                // c_i * P_i == r_i - S_i, so S_{i+1} == r_i (mod p_i).
                lemma_small_mod(0, pi as nat);
                assert(cong(si, si, pi));
                lemma_cong_add(ci * big_pi, residues@[i as int] - si, si, si, pi);
                assert(ci * big_pi + si == garner_sum(p, c2, i + 1)) by (nonlinear_arith)
                    requires
                        garner_sum(p, c2, i + 1) == si + (ci as nat) * (big_pi as nat),
                        big_pi >= 0,
                ;
                assert forall|m: int| 0 <= m < i implies cong(
                    #[trigger] garner_sum(p, c2, m + 1) as int,
                    residues@[m] as int,
                    p[m] as int,
                ) by {
                    lemma_garner_sum_push(p, coeffs@, ci, m + 1);
                }
            }
            coeffs.push(ci);
            i = i + 1;
        }
        coeffs
    }

    /// Reconstruct a value from RNS representation into a fixed-limb integer:
    /// the unique value in `[0, M)` with the given residues.
    pub fn reconstruct_biguint<const N: usize>(&self, residues: &[u64]) -> (r: BigUint<N>)
        requires
            self.wf(),
            valid_residues(self@, residues@),
            self.modulus_spec() < BigUint::<N>::bound(),
        ensures
            r.value() < self.modulus_spec(),
            forall|i: int|
                0 <= i < self@.len() ==> #[trigger] (r.value() % (self@[i] as nat)) == residues@[i],
    {
        let ghost p = self@;
        let k = self.primes.len();
        let coeffs = self.garner_coefficients(residues);
        proof {
            lemma_prefix_product_mono(p, 1, k as int);
            assert(prefix_product(p, 0) == 1);
            assert(1 * (p[0] as nat) == p[0]);
            assert(prefix_product(p, 1) == p[0] as nat);
            if N == 0 {
                assert(BigUint::<N>::bound() == 1);
            }
        }
        let mut result = BigUint::<N>::zero();
        let mut product = BigUint::<N>::one();
        let mut idx: usize = 0;
        while idx < k
            invariant
                k == p.len(),
                p == self@,
                valid_basis(p),
                idx <= k,
                coeffs@.len() == k,
                forall|m: int| 0 <= m < k ==> #[trigger] coeffs@[m] < p[m],
                prefix_product(p, k as int) < BigUint::<N>::bound(),
                result.value() == garner_sum(p, coeffs@, idx as int),
                product.value() == prefix_product(p, idx as int),
            decreases k - idx,
        {
            let c = coeffs[idx];
            let prime = self.primes[idx];
            proof {
                lemma_prefix_product_mono(p, idx + 1, k as int);
                lemma_prefix_product_pos(p, idx as int);
                lemma_garner_bound(p, coeffs@, idx + 1);
                let q = prefix_product(p, idx as int);
                assert(q * (c as nat) < q * (prime as nat)) by (nonlinear_arith)
                    requires
                        q >= 1,
                        c < prime,
                ;
                assert(q * (c as nat) == (c as nat) * q) by (nonlinear_arith);
            }
            let (term, carry_term) = product.mul_by_limb(c);
            proof {
                if carry_term != 0 {
                    assert(carry_term * BigUint::<N>::bound() >= BigUint::<N>::bound()) by (nonlinear_arith)
                        requires
                            carry_term >= 1,
                    ;
                }
            }
            let (sum, carry_sum) = result.add_with_carry(&term);
            let (next_product, carry_product) = product.mul_by_limb(prime);
            proof {
                let q = prefix_product(p, idx as int);
                assert(carry_term == 0);
                assert(carry_term * BigUint::<N>::bound() == 0) by (nonlinear_arith)
                    requires
                        carry_term == 0,
                ;
                assert(term.value() == q * (c as nat));

                assert(garner_sum(p, coeffs@, idx + 1) == garner_sum(p, coeffs@, idx as int) + (
                coeffs@[idx as int] as nat) * q);
                assert(!carry_sum);
                assert(prefix_product(p, idx + 1) == q * (prime as nat));
                if carry_product != 0 {
                    assert(carry_product * BigUint::<N>::bound() >= BigUint::<N>::bound()) by (nonlinear_arith)
                        requires
                            carry_product >= 1,
                    ;
                }
                assert(carry_product == 0);
                assert(carry_product * BigUint::<N>::bound() == 0) by (nonlinear_arith)
                    requires
                        carry_product == 0,
                ;
            }
            result = sum;
            product = next_product;
            idx = idx + 1;
        }
        proof {
            lemma_garner_bound(p, coeffs@, k as int);
            assert forall|i: int| 0 <= i < p.len() implies #[trigger] (result.value() % (p[i] as nat))
                == residues@[i] by {
                lemma_garner_tail(p, coeffs@, i, k as int);
                lemma_cong_trans(
                    garner_sum(p, coeffs@, k as int) as int,
                    garner_sum(p, coeffs@, i + 1) as int,
                    residues@[i] as int,
                    p[i] as int,
                );
                lemma_cong_is_mod(garner_sum(p, coeffs@, k as int) as int, residues@[i] as int, p[i] as int);
            }
        }
        result
    }

    /// Reconstruct a value from RNS representation using CRT (Garner's
    /// algorithm): the unique value in `[0, M)` with the given residues.
    pub fn reconstruct(&self, residues: &[u64]) -> (r: u128)
        requires
            self.wf(),
            valid_residues(self@, residues@),
            self.modulus_spec() < 0x1_0000_0000_0000_0000_0000_0000_0000_0000,
        ensures
            r < self.modulus_spec(),
            forall|i: int| 0 <= i < self@.len() ==> #[trigger] (r % (self@[i] as u128)) == residues@[i],
    {
        proof {
            lemma_limb_pow(0);
            lemma_limb_pow(1);
        }
        let big = self.reconstruct_biguint::<2>(residues);
        let r = big.try_to_u128().expect("RNS reconstruction does not fit in u128");
        r
    }

    /// The composite modulus product as a fixed-limb integer.
    pub fn modulus_biguint<const N: usize>(&self) -> (r: BigUint<N>)
        requires
            self.wf(),
            self.modulus_spec() < BigUint::<N>::bound(),
        ensures
            r.value() == self.modulus_spec(),
    {
        let ghost p = self@;
        let k = self.primes.len();
        proof {
            lemma_prefix_product_mono(p, 1, k as int);
            assert(prefix_product(p, 0) == 1);
            assert(1 * (p[0] as nat) == p[0]);
            assert(prefix_product(p, 1) == p[0] as nat);
            if N == 0 {
                assert(BigUint::<N>::bound() == 1);
            }
        }
        let mut product = BigUint::<N>::one();
        let mut idx: usize = 0;
        while idx < k
            invariant
                k == p.len(),
                p == self@,
                valid_basis(p),
                idx <= k,
                prefix_product(p, k as int) < BigUint::<N>::bound(),
                product.value() == prefix_product(p, idx as int),
            decreases k - idx,
        {
            let prime = self.primes[idx];
            let (next, carry) = product.mul_by_limb(prime);
            proof {
                lemma_prefix_product_mono(p, idx + 1, k as int);
                assert(prefix_product(p, idx + 1) == prefix_product(p, idx as int) * (prime as nat));
                if carry != 0 {
                    assert(carry * BigUint::<N>::bound() >= BigUint::<N>::bound()) by (nonlinear_arith)
                        requires
                            carry >= 1,
                    ;
                }
                assert(carry == 0);
                assert(carry * BigUint::<N>::bound() == 0) by (nonlinear_arith)
                    requires
                        carry == 0,
                ;
            }
            product = next;
            idx = idx + 1;
        }
        product
    }

    /// Component-wise addition in RNS into an existing residue buffer.
    pub fn add_assign_into(&self, dst: &mut [u64], src: &[u64])
        requires
            old(dst)@.len() == self@.len(),
            src@.len() == self@.len(),
        ensures
            final(dst)@.len() == old(dst)@.len(),
            forall|i: int|
                0 <= i < src@.len() ==> #[trigger] final(dst)@[i] == rns_add_limb(
                    old(dst)@[i],
                    src@[i],
                    self@[i],
                ),
    {
        let n = self.primes.len();
        let mut i: usize = 0;
        while i < n
            invariant
                n == self@.len(),
                n == src@.len(),
                n == dst@.len(),
                i <= n,
                forall|k: int|
                    0 <= k < i ==> #[trigger] dst@[k] == rns_add_limb(old(dst)@[k], src@[k], self@[k]),
                forall|k: int| i <= k < n ==> #[trigger] dst@[k] == old(dst)@[k],
            decreases n - i,
        {
            let sum: u128 = dst[i] as u128 + src[i] as u128;
            let prime = self.primes[i] as u128;
            let v: u64 = if sum >= prime {
                let t: u128 = sum - prime;
                proof {
                    assert(t as u64 == t % 0x1_0000_0000_0000_0000) by (bit_vector);
                }
                t as u64
            } else {
                sum as u64
            };
            dst[i] = v;
            i = i + 1;
        }
    }

    /// Component-wise addition in RNS.
    pub fn add(&self, a: &[u64], b: &[u64]) -> (r: Vec<u64>)
        requires
            a@.len() == self@.len(),
            b@.len() == self@.len(),
        ensures
            r@.len() == a@.len(),
            forall|i: int| 0 <= i < r@.len() ==> #[trigger] r@[i] == rns_add_limb(a@[i], b@[i], self@[i]),
    {
        let mut out = vstd::slice::slice_to_vec(a);
        self.add_assign_into(out.as_mut_slice(), b);
        out
    }

    /// Component-wise subtraction in RNS into an existing residue buffer.
    pub fn sub_assign_into(&self, dst: &mut [u64], src: &[u64])
        requires
            old(dst)@.len() == self@.len(),
            src@.len() == self@.len(),
            forall|i: int| 0 <= i < src@.len() && old(dst)@[i] < src@[i] ==> src@[i] <= self@[i],
        ensures
            final(dst)@.len() == old(dst)@.len(),
            forall|i: int|
                0 <= i < src@.len() ==> #[trigger] final(dst)@[i] == rns_sub_limb(
                    old(dst)@[i],
                    src@[i],
                    self@[i],
                ),
    {
        let n = self.primes.len();
        let mut i: usize = 0;
        while i < n
            invariant
                n == self@.len(),
                n == src@.len(),
                n == dst@.len(),
                i <= n,
                forall|k: int| 0 <= k < n && old(dst)@[k] < src@[k] ==> src@[k] <= self@[k],
                forall|k: int|
                    0 <= k < i ==> #[trigger] dst@[k] == rns_sub_limb(old(dst)@[k], src@[k], self@[k]),
                forall|k: int| i <= k < n ==> #[trigger] dst@[k] == old(dst)@[k],
            decreases n - i,
        {
            let d = dst[i];
            let s = src[i];
            let v = if d >= s {
                d - s
            } else {
                self.primes[i] - s + d
            };
            dst[i] = v;
            i = i + 1;
        }
    }

    /// Component-wise subtraction in RNS.
    pub fn sub(&self, a: &[u64], b: &[u64]) -> (r: Vec<u64>)
        requires
            a@.len() == self@.len(),
            b@.len() == self@.len(),
            forall|i: int| 0 <= i < b@.len() && a@[i] < b@[i] ==> b@[i] <= self@[i],
        ensures
            r@.len() == a@.len(),
            forall|i: int| 0 <= i < r@.len() ==> #[trigger] r@[i] == rns_sub_limb(a@[i], b@[i], self@[i]),
    {
        let mut out = vstd::slice::slice_to_vec(a);
        self.sub_assign_into(out.as_mut_slice(), b);
        out
    }

    /// Component-wise multiplication in RNS into an existing residue buffer.
    pub fn mul_assign_into(&self, dst: &mut [u64], src: &[u64])
        requires
            self.wf(),
            old(dst)@.len() == self@.len(),
            src@.len() == self@.len(),
        ensures
            final(dst)@.len() == old(dst)@.len(),
            forall|i: int|
                0 <= i < src@.len() ==> #[trigger] final(dst)@[i] as nat == (old(dst)@[i] as nat
                    * src@[i] as nat) % (self@[i] as nat),
    {
        let n = self.primes.len();
        let mut i: usize = 0;
        while i < n
            invariant
                self.wf(),
                valid_basis(self@),
                n == self@.len(),
                n == src@.len(),
                n == dst@.len(),
                i <= n,
                forall|k: int|
                    0 <= k < i ==> #[trigger] dst@[k] as nat == (old(dst)@[k] as nat * src@[k] as nat)
                        % (self@[k] as nat),
                forall|k: int| i <= k < n ==> #[trigger] dst@[k] == old(dst)@[k],
            decreases n - i,
        {
            let prime = self.primes[i];
            proof {
                assert(self@[i as int] > 1);
                assert(dst[i as int] * src[i as int] <= 0xffff_ffff_ffff_ffff * 0xffff_ffff_ffff_ffff)
                    by (nonlinear_arith)
                    requires
                        dst[i as int] <= 0xffff_ffff_ffff_ffff,
                        src[i as int] <= 0xffff_ffff_ffff_ffff,
                ;
            }
            let prod: u128 = (dst[i] as u128) * (src[i] as u128);
            let v = (prod % prime as u128) as u64;
            dst[i] = v;
            i = i + 1;
        }
    }

    /// Component-wise multiplication in RNS.
    pub fn mul(&self, a: &[u64], b: &[u64]) -> (r: Vec<u64>)
        requires
            self.wf(),
            a@.len() == self@.len(),
            b@.len() == self@.len(),
        ensures
            r@.len() == a@.len(),
            forall|i: int|
                0 <= i < r@.len() ==> #[trigger] r@[i] as nat == (a@[i] as nat * b@[i] as nat) % (
                self@[i] as nat),
    {
        let mut out = vstd::slice::slice_to_vec(a);
        self.mul_assign_into(out.as_mut_slice(), b);
        out
    }
}

/// The modular inverse `a^{-1} mod m` by the extended Euclidean algorithm.
///
/// The inverse exists exactly when `gcd(a, m) == 1`.
pub fn mod_inv_u64(a: u64, m: u64) -> (r: u64)
    requires
        m > 0,
        gcd_spec(a as nat, m as nat) == 1,
    ensures
        r < m,
        ((a as int) * (r as int)) % (m as int) == 1int % (m as int),
{
    let mut old_r: u64 = a;
    let mut r: u64 = m;
    let mut old_s: i128 = 1;
    let mut s: i128 = 0;
    let ghost mi = m as int;
    let ghost ai = a as int;
    proof {
        assert((ai * 1 - ai) % mi == 0) by {
            assert(ai * 1 - ai == 0);
            lemma_small_mod(0, m as nat);
        }
        assert((ai * 0 - mi) % mi == 0) by {
            lemma_mod_multiples_basic(-1, mi);
        }
        assert(abs_i(s) == 0 && abs_i(old_s) == 1);
        assert(abs_i(s) * old_r + abs_i(old_s) * r == mi);
    }
    while r != 0
        invariant
            m > 0,
            mi == m as int,
            ai == a as int,
            gcd_spec(old_r as nat, r as nat) == gcd_spec(a as nat, m as nat),
            (ai * old_s - old_r) % mi == 0,
            (ai * s - r) % mi == 0,
            old_s * s <= 0,
            abs_i(s) * old_r + abs_i(old_s) * r == mi,
            old_r == 0 ==> s == 0,
            abs_i(old_s) <= mi,
            abs_i(s) <= mi,
        decreases r,
    {
        let q = old_r / r;
        let rem = old_r % r;
        proof {
            lemma_fundamental_div_mod(old_r as int, r as int);
            lemma_mod_bound(old_r as int, r as int);
            lemma_step_bounds(old_r as int, r as int, q as int, old_s as int, s as int, mi);
        }
        let new_s = old_s - (q as i128) * s;
        proof {
            lemma_bezout_step(ai, mi, old_r as int, r as int, q as int, old_s as int, s as int);
        }
        old_r = r;
        r = rem;
        old_s = s;
        s = new_s;
    }
    proof {
        assert(gcd_spec(old_r as nat, 0) == old_r);
    }
    // Now a * old_s == 1 (mod m), with |old_s| <= m.
    let res: u64 = if old_s >= 0 {
        let v = (old_s as u64) % m;
        proof {
            lemma_inverse_from_bezout(ai, mi, old_s as int, v as int);
        }
        v
    } else {
        let neg = ((0 - old_s) as u64) % m;
        let v = if neg == 0 {
            0
        } else {
            m - neg
        };
        proof {
            lemma_neg_mod(-(old_s as int), mi, neg as int, v as int);
            lemma_inverse_from_bezout(ai, mi, old_s as int, v as int);
        }
        v
    };
    res
}

/// The Euclidean remainder of `-n` from that of `n`.
proof fn lemma_neg_mod(n: int, m: int, neg: int, v: int)
    requires
        n > 0,
        m > 0,
        neg == n % m,
        v == (if neg == 0 { 0 } else { m - neg }),
    ensures
        v == (-n) % m,
{
    lemma_fundamental_div_mod(n, m);
    let k = n / m;
    lemma_mod_bound(n, m);
    if neg == 0 {
        assert(-n == (-k) * m + 0) by (nonlinear_arith)
            requires
                n == m * k + 0,
        ;
        vstd::arithmetic::div_mod::lemma_fundamental_div_mod_converse(-n, m, -k, 0);
    } else {
        assert(-n == (-k - 1) * m + (m - neg)) by (nonlinear_arith)
            requires
                n == m * k + neg,
        ;
        vstd::arithmetic::div_mod::lemma_fundamental_div_mod_converse(-n, m, -k - 1, m - neg);
    }
}

/// `|x|` as an integer.
pub open spec fn abs_i(x: i128) -> int {
    if x < 0 {
        -(x as int)
    } else {
        x as int
    }
}

/// One Euclid step keeps the cofactors within `[-m, m]`.
proof fn lemma_step_bounds(old_r: int, r: int, q: int, old_s: int, s: int, m: int)
    requires
        r > 0,
        old_r >= 0,
        q == old_r / r,
        old_r == r * q + old_r % r,
        0 <= old_r % r < r,
        old_s * s <= 0,
        (if s < 0 { -s } else { s }) * old_r + (if old_s < 0 { -old_s } else { old_s }) * r == m,
        m > 0,
    ensures
        0 <= q,
        -m <= q * s <= m,
        -m <= old_s - q * s <= m,
{
    let as_ = if s < 0 { -s } else { s };
    let ao = if old_s < 0 { -old_s } else { old_s };
    assert(q >= 0) by (nonlinear_arith)
        requires
            r > 0,
            old_r >= 0,
            old_r == r * q + old_r % r,
            old_r % r < r,
    ;
    assert(q * as_ * r <= as_ * old_r) by (nonlinear_arith)
        requires
            old_r == r * q + old_r % r,
            old_r % r >= 0,
            as_ >= 0,
            q >= 0,
            r > 0,
    ;
    assert(ao * r + q * as_ * r <= m) by (nonlinear_arith)
        requires
            q * as_ * r <= as_ * old_r,
            as_ * old_r + ao * r == m,
    ;
    assert(ao + q * as_ <= m) by (nonlinear_arith)
        requires
            ao * r + q * as_ * r <= m,
            r >= 1,
            ao >= 0,
            q >= 0,
            as_ >= 0,
    ;
    assert(-(q * as_) <= q * s <= q * as_) by (nonlinear_arith)
        requires
            as_ == (if s < 0 { -s } else { s }),
            q >= 0,
    ;
    assert(q * as_ >= 0) by (nonlinear_arith)
        requires
            q >= 0,
            as_ >= 0,
    ;
    assert(-(ao + q * as_) <= old_s - q * s <= ao + q * as_) by (nonlinear_arith)
        requires
            ao == (if old_s < 0 { -old_s } else { old_s }),
            as_ == (if s < 0 { -s } else { s }),
            q >= 0,
    ;
}

/// One Euclid step keeps the Bezout congruences and the cofactor identity.
proof fn lemma_bezout_step(a: int, m: int, old_r: int, r: int, q: int, old_s: int, s: int)
    requires
        m > 0,
        r > 0,
        old_r >= 0,
        q >= 0,
        old_r == r * q + old_r % r,
        0 <= old_r % r < r,
        (a * old_s - old_r) % m == 0,
        (a * s - r) % m == 0,
        old_s * s <= 0,
        (if s < 0 { -s } else { s }) * old_r + (if old_s < 0 { -old_s } else { old_s }) * r == m,
    ensures
        (a * (old_s - q * s) - old_r % r) % m == 0,
        s * (old_s - q * s) <= 0,
        (if old_s - q * s < 0 { -(old_s - q * s) } else { old_s - q * s }) * r + (if s < 0 {
            -s
        } else {
            s
        }) * (old_r % r) == m,
        r == 0 ==> old_s - q * s == 0,
{
    let rem = old_r % r;
    let x = a * old_s - old_r;
    let y = a * s - r;
    assert(a * (old_s - q * s) - rem == x - q * y) by (nonlinear_arith)
        requires
            x == a * old_s - old_r,
            y == a * s - r,
            old_r == r * q + rem,
    ;
    lemma_fundamental_div_mod(x, m);
    lemma_fundamental_div_mod(y, m);
    let kx = x / m;
    let ky = y / m;
    assert(x - q * y == m * (kx - q * ky)) by (nonlinear_arith)
        requires
            x == m * kx + x % m,
            y == m * ky + y % m,
            x % m == 0,
            y % m == 0,
    ;
    lemma_mod_multiples_basic(kx - q * ky, m);
    assert((kx - q * ky) * m == m * (kx - q * ky)) by (nonlinear_arith);
    assert(s * (old_s - q * s) <= 0) by (nonlinear_arith)
        requires
            old_s * s <= 0,
            q >= 0,
    ;
    let as_ = if s < 0 { -s } else { s };
    let ao = if old_s < 0 { -old_s } else { old_s };
    let an = if old_s - q * s < 0 { -(old_s - q * s) } else { old_s - q * s };
    assert(an == ao + q * as_) by (nonlinear_arith)
        requires
            old_s * s <= 0,
            q >= 0,
            as_ == (if s < 0 { -s } else { s }),
            ao == (if old_s < 0 { -old_s } else { old_s }),
            an == (if old_s - q * s < 0 { -(old_s - q * s) } else { old_s - q * s }),
    ;
    assert(an * r + as_ * rem == m) by (nonlinear_arith)
        requires
            an == ao + q * as_,
            as_ * old_r + ao * r == m,
            old_r == r * q + rem,
    ;
}

/// From `a * s == 1 (mod m)`, the canonical representative `v` of `s` is an
/// inverse of `a`.
proof fn lemma_inverse_from_bezout(a: int, m: int, s: int, v: int)
    requires
        m > 0,
        (a * s - 1) % m == 0,
        v == s % m,
    ensures
        (a * v) % m == 1int % m,
{
    lemma_fundamental_div_mod(s, m);
    let k = s / m;
    lemma_fundamental_div_mod(a * s - 1, m);
    let j = (a * s - 1) / m;
    assert(a * v == 1 + m * (j - a * k)) by (nonlinear_arith)
        requires
            s == m * k + v,
            a * s - 1 == m * j,
    ;
    vstd::arithmetic::div_mod::lemma_mod_multiples_vanish(j - a * k, 1, m);
    assert(m * (j - a * k) + 1 == 1 + m * (j - a * k));
}


/// For `p` dividing `M`, reducing modulo `M` first does not change the residue mod `p`.
pub(crate) proof fn lemma_mod_divisor(x: int, p: int, m: int)
    requires
        p > 0,
        m > 0,
        m % p == 0,
    ensures
        (x % m) % p == x % p,
{
    lemma_fundamental_div_mod(m, p);
    let k = m / p;
    assert(k > 0) by (nonlinear_arith)
        requires
            m == p * k + 0,
            m > 0,
            p > 0,
    ;
    vstd::arithmetic::div_mod::lemma_mod_mod(x, p, k);
}

/// The residues of `M` vanish: each modulus of a basis divides `M`.
pub(crate) proof fn lemma_modulus_multiple(p: Seq<u64>, i: int)
    requires
        valid_basis(p),
        0 <= i < p.len(),
    ensures
        prefix_product(p, p.len() as int) as int % (p[i] as int) == 0,
        prefix_product(p, p.len() as int) > 0,
{
    lemma_prefix_product_divisible(p, i, p.len() as int);
    lemma_prefix_product_pos(p, p.len() as int);
    assert(prefix_product(p, p.len() as int) as int - 0 == prefix_product(p, p.len() as int));
}

/// Residue arithmetic is arithmetic modulo `M`: for `a, b < M`, adding,
/// subtracting and multiplying the residues of `a` and `b` limb by limb gives the
/// residues of `(a + b) mod M`, `(a - b) mod M` and `(a * b) mod M`.
pub proof fn lemma_rns_ops_homomorphic(p: Seq<u64>, a: nat, b: nat)
    requires
        valid_basis(p),
        a < prefix_product(p, p.len() as int),
        b < prefix_product(p, p.len() as int),
    ensures
        forall|i: int|
            #![trigger p[i]]
            0 <= i < p.len() ==> rns_add_limb((a % (p[i] as nat)) as u64, (b % (p[i] as nat)) as u64, p[i])
                == ((a + b) % prefix_product(p, p.len() as int)) % (p[i] as nat),
        forall|i: int|
            #![trigger p[i]]
            0 <= i < p.len() ==> rns_sub_limb((a % (p[i] as nat)) as u64, (b % (p[i] as nat)) as u64, p[i])
                == ((a + prefix_product(p, p.len() as int) - b) as nat % prefix_product(p, p.len() as int))
                % (p[i] as nat),
        forall|i: int|
            #![trigger p[i]]
            0 <= i < p.len() ==> ((a % (p[i] as nat)) * (b % (p[i] as nat))) % (p[i] as nat)
                == ((a * b) % prefix_product(p, p.len() as int)) % (p[i] as nat),
{
    let m = prefix_product(p, p.len() as int) as int;
    assert forall|i: int| #![trigger p[i]] 0 <= i < p.len() implies {
        &&& rns_add_limb((a % (p[i] as nat)) as u64, (b % (p[i] as nat)) as u64, p[i])
            == ((a + b) % prefix_product(p, p.len() as int)) % (p[i] as nat)
        &&& rns_sub_limb((a % (p[i] as nat)) as u64, (b % (p[i] as nat)) as u64, p[i])
            == ((a + prefix_product(p, p.len() as int) - b) as nat % prefix_product(p, p.len() as int))
            % (p[i] as nat)
        &&& ((a % (p[i] as nat)) * (b % (p[i] as nat))) % (p[i] as nat)
            == ((a * b) % prefix_product(p, p.len() as int)) % (p[i] as nat)
    } by {
        let pi = p[i] as int;
        assert(p[i] > 1);
        lemma_modulus_multiple(p, i);
        lemma_mod_bound(a as int, pi);
        lemma_mod_bound(b as int, pi);
        let x = (a % (p[i] as nat)) as u64;
        let y = (b % (p[i] as nat)) as u64;
        lemma_rns_limb_ops(x, y, p[i]);
        // addition
        vstd::arithmetic::div_mod::lemma_add_mod_noop(a as int, b as int, pi);
        lemma_mod_divisor((a + b) as int, pi, m);
        // subtraction: a + M - b = a - b (mod p_i)
        vstd::arithmetic::div_mod::lemma_sub_mod_noop(a as int, b as int, pi);
        lemma_mod_divisor((a + m - b) as int, pi, m);
        lemma_fundamental_div_mod(m, pi);
        vstd::arithmetic::div_mod::lemma_mod_multiples_vanish(m / pi, (a - b) as int, pi);
        assert(a + m - b == pi * (m / pi) + (a - b));
        // multiplication
        vstd::arithmetic::div_mod::lemma_mul_mod_noop(a as int, b as int, pi);
        lemma_mod_divisor((a * b) as int, pi, m);
    }
}

} // verus!
