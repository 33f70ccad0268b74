//! Primality of 64-bit moduli. The strong probable-prime (Miller–Rabin) test to a
//! fixed set of seven bases points the way; primes are then certified by Lucas's
//! criterion (proved here), composites by a factor, and trial division settles the
//! rest, so the answer is exactly primality.
use vstd::arithmetic::power::{lemma_pow1, lemma_pow_adds, lemma_pow_mod_noop, lemma_pow_multiplies, pow};
use crate::arith::rns::{gcd, gcd_spec, is_prime, lemma_divides_trans, lemma_euclid, lemma_gcd_divides};
use vstd::set_lib::{lemma_int_range, lemma_len_subset, lemma_map_size, set_int_range};
use vstd::prelude::*;

verus! {

/// The primes tried by trial division.
pub open spec fn small_primes() -> Seq<u64> {
    seq![2u64, 3, 5, 7, 11, 13, 17, 19, 23, 29, 31, 37]
}

/// The Miller–Rabin bases.
pub open spec fn mr_bases() -> Seq<u64> {
    seq![2u64, 325, 9_375, 28_178, 450_775, 9_780_504, 1_795_265_022]
}

/// The odd part of `m`: `m` with every factor `2` removed.
pub open spec fn odd_part(m: nat) -> nat
    decreases m,
{
    if m > 0 && m % 2 == 0 {
        odd_part(m / 2)
    } else {
        m
    }
}

/// The number of factors `2` in `m` (for `m > 0`).
pub open spec fn two_adic_exponent(m: nat) -> nat
    decreases m,
{
    if m > 0 && m % 2 == 0 {
        1 + two_adic_exponent(m / 2)
    } else {
        0
    }
}

/// `n` is a strong probable prime to base `a`: with `n - 1 = d * 2^s`, `d` odd,
/// either `a^d = 1 (mod n)` or `a^(d * 2^r) = -1 (mod n)` for some `r < s`.
pub open spec fn strong_probable_prime(n: nat, a: nat) -> bool {
    let d = odd_part((n - 1) as nat);
    let s = two_adic_exponent((n - 1) as nat);
    ||| pow(a as int, d) % (n as int) == 1
    ||| exists|r: nat| r < s && #[trigger] (pow(a as int, d * vstd::arithmetic::power2::pow2(r)) % (n as int)) == n - 1
}

/// The outcome of the test: `n >= 2`, no listed small prime divides `n` unless it is
/// `n`, and either `n` is a listed small prime or `n` is a strong probable prime to
/// every base that is nonzero modulo `n`.
pub open spec fn passes_primality_test(n: nat) -> bool {
    &&& n >= 2
    &&& forall|i: int| 0 <= i < 12 ==> #[trigger] (n % (small_primes()[i] as nat)) == 0 ==> n == small_primes()[i]
    &&& (small_primes().contains(n as u64) || forall|j: int|
        0 <= j < 7 ==> (#[trigger] mr_bases()[j] as nat) % n == 0 || strong_probable_prime(n, (mr_bases()[j] as nat) % n))
}

/// The product of the entries of `s`.
pub open spec fn seq_prod(s: Seq<u64>) -> nat
    decreases s.len(),
{
    if s.len() == 0 {
        1
    } else {
        seq_prod(s.drop_last()) * (s.last() as nat)
    }
}

/// Every entry of `s` is prime.
pub open spec fn all_prime(s: Seq<u64>) -> bool {
    forall|i: int| 0 <= i < s.len() ==> is_prime(#[trigger] s[i] as nat)
}

/// Lucas's criterion for `n` with base `a` and the prime factorization `fs` of `n - 1`:
/// `a^(n-1) = 1 (mod n)`, and `a^((n-1)/q) != 1 (mod n)` for every prime `q` in `fs`.
pub open spec fn lucas_witness(n: nat, a: nat, fs: Seq<u64>) -> bool {
    &&& n >= 2
    &&& seq_prod(fs) == n - 1
    &&& all_prime(fs)
    &&& pow(a as int, (n - 1) as nat) % (n as int) == 1
    &&& forall|i: int| 0 <= i < fs.len() ==> #[trigger] (pow(a as int, ((n - 1) as nat / (fs[i] as nat)) as nat) % (n as int)) != 1
}

/// Every `t >= 2` has a prime divisor.
proof fn lemma_prime_divisor(t: nat) -> (r: nat)
    requires
        t >= 2,
    ensures
        is_prime(r),
        t % r == 0,
    decreases t,
{
    if is_prime(t) {
        vstd::arithmetic::div_mod::lemma_mod_self_0(t as int);
        t
    } else {
        let d = choose|d: nat| 1 < d < t && #[trigger] (t % d) == 0;
        let r = lemma_prime_divisor(d);
        lemma_divides_trans(r, d, t);
        r
    }
}

/// A prime dividing a product of primes is one of them.
proof fn lemma_prime_divides_product(r: nat, s: Seq<u64>) -> (i: int)
    requires
        is_prime(r),
        all_prime(s),
        seq_prod(s) % r == 0,
    ensures
        0 <= i < s.len(),
        s[i] == r,
    decreases s.len(),
{
    if s.len() == 0 {
        vstd::arithmetic::div_mod::lemma_small_mod(1, r);
        assert(false);
        0
    } else {
        let last = s.last() as nat;
        let rest = s.drop_last();
        assert(is_prime(last)) by {
            assert(s[s.len() - 1] == s.last());
        }
        if last % r == 0 {
            if r < last {
                assert(last % r != 0);
            }
            if r > last {
                vstd::arithmetic::div_mod::lemma_small_mod(last, r);
            }
            s.len() - 1
        } else {
            assert(seq_prod(s) == last * seq_prod(rest)) by (nonlinear_arith)
                requires
                    seq_prod(s) == seq_prod(rest) * last,
            ;
            lemma_euclid(r, last, seq_prod(rest));
            assert(all_prime(rest)) by {
                assert forall|k: int| 0 <= k < rest.len() implies is_prime(#[trigger] rest[k] as nat) by {
                    assert(rest[k] == s[k]);
                }
            }
            let k = lemma_prime_divides_product(r, rest);
            assert(rest[k] == s[k]);
            k
        }
    }
}

/// Powers of `a` equal to `1` modulo `n` are closed under remainder: from
/// `a^x = a^y = 1` follows `a^(x mod y) = 1`.
proof fn lemma_pow_one_mod(a: nat, x: nat, y: nat, n: nat)
    requires
        n >= 2,
        y > 0,
        pow(a as int, x) % (n as int) == 1,
        pow(a as int, y) % (n as int) == 1,
    ensures
        pow(a as int, x % y) % (n as int) == 1,
{
    let q = x / y;
    let r = x % y;
    vstd::arithmetic::div_mod::lemma_fundamental_div_mod(x as int, y as int);
    assert(x == y * q + r);
    lemma_pow_adds(a as int, y * q, r);
    lemma_pow_multiplies(a as int, y, q);
    vstd::arithmetic::power::lemma_pow_mod_noop(pow(a as int, y), q, n as int);
    vstd::arithmetic::power::lemma1_pow(q);
    vstd::arithmetic::div_mod::lemma_small_mod(1, n);
    vstd::arithmetic::div_mod::lemma_mul_mod_noop_left(pow(a as int, y * q), pow(a as int, r), n as int);
}

/// `a^x = a^y = 1 (mod n)` gives `a^gcd(x, y) = 1 (mod n)`.
proof fn lemma_pow_one_gcd(a: nat, x: nat, y: nat, n: nat)
    requires
        n >= 2,
        pow(a as int, x) % (n as int) == 1,
        pow(a as int, y) % (n as int) == 1,
    ensures
        pow(a as int, gcd_spec(x, y)) % (n as int) == 1,
    decreases y,
{
    if y > 0 {
        lemma_pow_one_mod(a, x, y, n);
        vstd::arithmetic::div_mod::lemma_mod_bound(x as int, y as int);
        lemma_pow_one_gcd(a, y, x % y, n);
    }
}

/// `a^g = 1 (mod n)` gives `a^(g t) = 1 (mod n)`.
proof fn lemma_pow_one_multiple(a: nat, g: nat, t: nat, n: nat)
    requires
        n >= 2,
        pow(a as int, g) % (n as int) == 1,
    ensures
        pow(a as int, g * t) % (n as int) == 1,
{
    lemma_pow_multiplies(a as int, g, t);
    vstd::arithmetic::power::lemma_pow_mod_noop(pow(a as int, g), t, n as int);
    vstd::arithmetic::power::lemma1_pow(t);
    vstd::arithmetic::div_mod::lemma_small_mod(1, n);
}

/// If `a^e = 1 (mod n)` for some `0 < e < n - 1`, then `a^((n-1)/q) = 1 (mod n)` for
/// some prime `q` of the factorization of `n - 1`.
proof fn lemma_short_order(n: nat, a: nat, fs: Seq<u64>, e: nat) -> (i: int)
    requires
        n >= 2,
        seq_prod(fs) == n - 1,
        all_prime(fs),
        pow(a as int, (n - 1) as nat) % (n as int) == 1,
        pow(a as int, e) % (n as int) == 1,
        0 < e < n - 1,
    ensures
        0 <= i < fs.len(),
        pow(a as int, ((n - 1) as nat / (fs[i] as nat)) as nat) % (n as int) == 1,
{
    let m = (n - 1) as nat;
    lemma_gcd_divides(m, e);
    let g = gcd_spec(m, e);
    lemma_pow_one_gcd(a, m, e, n);
    if g > e {
        vstd::arithmetic::div_mod::lemma_small_mod(e, g);
    }
    let t = m / g;
    vstd::arithmetic::div_mod::lemma_fundamental_div_mod(m as int, g as int);
    assert(m == g * t);
    assert(t >= 2) by (nonlinear_arith)
        requires
            m == g * t,
            g <= e,
            e < m,
            g > 0,
    ;
    let r = lemma_prime_divisor(t);
    assert(m % t == 0) by {
        vstd::arithmetic::div_mod::lemma_mod_multiples_basic(g as int, t as int);
        assert(g * t == t * g) by (nonlinear_arith);
    }
    lemma_divides_trans(r, t, m);
    let i = lemma_prime_divides_product(r, fs);
    let u = t / r;
    vstd::arithmetic::div_mod::lemma_fundamental_div_mod(t as int, r as int);
    assert(m == r * (g * u)) by (nonlinear_arith)
        requires
            m == g * t,
            t == r * u,
    ;
    assert(g * u >= 0) by (nonlinear_arith);
    vstd::arithmetic::div_mod::lemma_div_multiples_vanish((g * u) as int, r as int);
    assert(m / r == g * u);
    lemma_pow_one_multiple(a, g, u, n);
    i
}

/// Equal powers `a^i = a^j (mod n)` with `i < j` give `a^(j-i) = 1 (mod n)` when
/// `a^(n-1) = 1 (mod n)` and `j <= n - 1`.
proof fn lemma_pow_collision(n: nat, a: nat, i: nat, j: nat)
    requires
        n >= 2,
        i < j <= n - 1,
        pow(a as int, (n - 1) as nat) % (n as int) == 1,
        pow(a as int, i) % (n as int) == pow(a as int, j) % (n as int),
    ensures
        pow(a as int, (j - i) as nat) % (n as int) == 1,
{
    let k = (n - 1 - i) as nat;
    let ni = n as int;
    lemma_pow_adds(a as int, i, k);
    lemma_pow_adds(a as int, j, k);
    lemma_pow_adds(a as int, (j - i) as nat, (n - 1) as nat);
    assert(i + k == n - 1);
    assert((j - i) as nat + (n - 1) as nat == j + k);
    vstd::arithmetic::div_mod::lemma_mul_mod_noop_left(pow(a as int, i), pow(a as int, k), ni);
    vstd::arithmetic::div_mod::lemma_mul_mod_noop_left(pow(a as int, j), pow(a as int, k), ni);
    vstd::arithmetic::div_mod::lemma_mul_mod_noop_right(pow(a as int, (j - i) as nat), pow(a as int, (n - 1) as nat), ni);
}

/// Each power `a^i` with `i <= n - 1` is prime to every divisor `p >= 2` of `n`,
/// when `a^(n-1) = 1 (mod n)`.
proof fn lemma_power_unit(n: nat, a: nat, i: nat, p: nat)
    requires
        n >= 2,
        2 <= p,
        n % p == 0,
        i <= n - 1,
        pow(a as int, (n - 1) as nat) % (n as int) == 1,
    ensures
        (pow(a as int, i) % (n as int)) % (p as int) != 0,
{
    let k = n / p;
    vstd::arithmetic::div_mod::lemma_fundamental_div_mod(n as int, p as int);
    assert(n == p * k);
    assert(k > 0) by (nonlinear_arith)
        requires
            n == p * k,
            n >= 2,
    ;
    vstd::arithmetic::div_mod::lemma_mod_mod(pow(a as int, i), p as int, k as int);
    vstd::arithmetic::div_mod::lemma_mod_mod(pow(a as int, (n - 1) as nat), p as int, k as int);
    vstd::arithmetic::div_mod::lemma_small_mod(1, p);
    let j = (n - 1 - i) as nat;
    lemma_pow_adds(a as int, i, j);
    assert(i + j == n - 1);
    let pi = p as int;
    assert((n as int) == pi * (k as int));
    assert(pow(a as int, (n - 1) as nat) % pi == 1);
    assert((pow(a as int, i) % (n as int)) % pi == pow(a as int, i) % pi);
    if pow(a as int, i) % pi == 0 {
        vstd::arithmetic::div_mod::lemma_mul_mod_noop_left(pow(a as int, i), pow(a as int, j), pi);
        assert(0 * pow(a as int, j) == 0);
        vstd::arithmetic::div_mod::lemma_small_mod(0, p);
        assert(false);
    }
}

/// Lucas's theorem: an `n` with a Lucas witness is prime. If `n` had a divisor `p`,
/// the `n - 1` powers `a^0, ..., a^(n-2)` would be distinct residues (else `a` would
/// have a shorter order, which the witness excludes) prime to `p`, but fewer than
/// `n - 1` residues in `1..n` are prime to `p`.
pub proof fn lemma_lucas(n: nat, a: nat, fs: Seq<u64>)
    requires
        lucas_witness(n, a, fs),
    ensures
        is_prime(n),
{
    if !is_prime(n) {
        let p = choose|d: nat| 1 < d < n && #[trigger] (n % d) == 0;
        let ni = n as int;
        let f = |i: int| pow(a as int, i as nat) % ni;
        let xs = set_int_range(0, ni - 1);
        assert forall|i: int, j: int| xs.contains(i) && xs.contains(j) && #[trigger] f(i) == #[trigger] f(j) implies i == j by {
            if i < j {
                lemma_pow_collision(n, a, i as nat, j as nat);
                let k = lemma_short_order(n, a, fs, (j - i) as nat);
            } else if j < i {
                lemma_pow_collision(n, a, j as nat, i as nat);
                let k = lemma_short_order(n, a, fs, (i - j) as nat);
            }
        }
        lemma_int_range(0, ni - 1);
        let ys = xs.map(f);
        lemma_map_size(xs, ys, f);
        let big = set_int_range(1, ni);
        lemma_int_range(1, ni);
        let allowed = big.remove(p as int);
        assert(big.contains(p as int));
        assert forall|y: int| ys.contains(y) implies allowed.contains(y) by {
            let i = choose|i: int| xs.contains(i) && f(i) == y;
            lemma_power_unit(n, a, i as nat, p);
            vstd::arithmetic::div_mod::lemma_mod_bound(pow(a as int, i as nat), ni);
            vstd::arithmetic::div_mod::lemma_mod_self_0(p as int);
            if y == 0 {
                vstd::arithmetic::div_mod::lemma_small_mod(0, p);
            }
        }
        lemma_len_subset(ys, allowed);
        assert(false);
    }
}

/// `(lhs * rhs) mod modulus`.
fn mul_mod_const(lhs: u64, rhs: u64, modulus: u64) -> (r: u64)
    requires
        modulus > 0,
    ensures
        r as int == (lhs as int * rhs as int) % (modulus as int),
{
    proof {
        assert(lhs as int * rhs as int <= 0xffff_ffff_ffff_ffff * 0xffff_ffff_ffff_ffff) by (nonlinear_arith);
    }
    (((lhs as u128) * (rhs as u128)) % (modulus as u128)) as u64
}

/// One square-and-multiply step keeps `acc * base^e` fixed modulo `m`.
proof fn lemma_pow_step(acc: int, base: int, e: nat, m: int)
    requires
        m > 0,
        e > 0,
    ensures
        ((if e % 2 == 1 {
            (acc * base) % m
        } else {
            acc
        }) * pow((base * base) % m, e / 2)) % m == (acc * pow(base, e)) % m,
{
    let e2 = e / 2;
    let bit = e % 2;
    let bb = base * base;
    lemma_pow_adds(base, 2 * e2, bit);
    assert(2 * e2 + bit == e);
    lemma_pow_multiplies(base, 2, e2);
    lemma_pow_adds(base, 1, 1);
    lemma_pow1(base);
    assert(pow(base, 2) == bb);
    lemma_pow_mod_noop(bb, e2, m);
    let p = pow(bb, e2);
    let q = pow(bb % m, e2);
    vstd::arithmetic::div_mod::lemma_mul_mod_noop_right(acc, q, m);
    vstd::arithmetic::div_mod::lemma_mul_mod_noop_right(acc, p, m);
    if bit == 1 {
        assert(pow(base, 1) == base);
        vstd::arithmetic::div_mod::lemma_mul_mod_noop_left(acc * base, q, m);
        vstd::arithmetic::div_mod::lemma_mul_mod_noop_right(acc * base, q, m);
        vstd::arithmetic::div_mod::lemma_mul_mod_noop_right(acc * base, p, m);
        assert((acc * base) * p == acc * (p * base)) by (nonlinear_arith);
    } else {
        vstd::arithmetic::power::lemma_pow0(base);
        assert(pow(base, e) == p);
    }
}

/// `base^exp mod modulus` by square-and-multiply.
fn pow_mod_const(base: u64, exp: u64, modulus: u64) -> (r: u64)
    requires
        modulus > 1,
    ensures
        r as int == pow(base as int, exp as nat) % (modulus as int),
{
    let mut base = base;
    let mut exp = exp;
    let ghost b0 = base as int;
    let ghost e0 = exp as nat;
    let mut acc: u64 = 1;
    proof {
        vstd::arithmetic::power::lemma_pow0(b0);
    }
    while exp > 0
        invariant
            modulus > 1,
            acc < modulus,
            (acc as int * pow(base as int, exp as nat)) % (modulus as int) == pow(b0, e0) % (modulus as int),
        decreases exp,
    {
        let ghost old_acc = acc as int;
        let ghost old_base = base as int;
        let ghost old_exp: u64 = exp;
        proof {
            lemma_pow_step(old_acc, old_base, old_exp as nat, modulus as int);
        }
        if exp & 1 == 1 {
            acc = mul_mod_const(acc, base, modulus);
        }
        exp = exp >> 1;
        proof {
            assert(exp == old_exp / 2) by (bit_vector)
                requires exp == old_exp >> 1;
            assert((old_exp & 1 == 1) == (old_exp % 2 == 1)) by (bit_vector);
        }
        if exp > 0 {
            base = mul_mod_const(base, base, modulus);
        } else {
            proof {
                vstd::arithmetic::power::lemma_pow0(old_base);
                vstd::arithmetic::power::lemma_pow0((old_base * old_base) % (modulus as int));
            }
        }
    }
    proof {
        vstd::arithmetic::power::lemma_pow0(base as int);
        vstd::arithmetic::div_mod::lemma_small_mod(acc as nat, modulus as nat);
    }
    acc
}


/// Each listed small prime divides no other listed prime, and each is at least 2.
proof fn lemma_small_primes_table()
    ensures
        forall|i: int, j: int|
            0 <= i < 12 && 0 <= j < 12 && #[trigger] (small_primes()[i] as nat % small_primes()[j] as nat)
                == 0 ==> i == j,
        forall|i: int| 0 <= i < 12 ==> #[trigger] small_primes()[i] >= 2,
{
    let s = small_primes();
    assert(s[0] == 2 && s[1] == 3 && s[2] == 5 && s[3] == 7 && s[4] == 11 && s[5] == 13);
    assert(s[6] == 17 && s[7] == 19 && s[8] == 23 && s[9] == 29 && s[10] == 31 && s[11] == 37);
    assert forall|j: int| 0 <= j < 12 && #[trigger] (s[0] as nat % s[j] as nat) == 0 implies j == 0 by {
        if j == 0 { assert((2nat) % (2nat) == 0); }
        else if j == 1 { assert((2nat) % (3nat) != 0); }
        else if j == 2 { assert((2nat) % (5nat) != 0); }
        else if j == 3 { assert((2nat) % (7nat) != 0); }
        else if j == 4 { assert((2nat) % (11nat) != 0); }
        else if j == 5 { assert((2nat) % (13nat) != 0); }
        else if j == 6 { assert((2nat) % (17nat) != 0); }
        else if j == 7 { assert((2nat) % (19nat) != 0); }
        else if j == 8 { assert((2nat) % (23nat) != 0); }
        else if j == 9 { assert((2nat) % (29nat) != 0); }
        else if j == 10 { assert((2nat) % (31nat) != 0); }
        else if j == 11 { assert((2nat) % (37nat) != 0); }
    }
    assert forall|j: int| 0 <= j < 12 && #[trigger] (s[1] as nat % s[j] as nat) == 0 implies j == 1 by {
        if j == 0 { assert((3nat) % (2nat) != 0); }
        else if j == 1 { assert((3nat) % (3nat) == 0); }
        else if j == 2 { assert((3nat) % (5nat) != 0); }
        else if j == 3 { assert((3nat) % (7nat) != 0); }
        else if j == 4 { assert((3nat) % (11nat) != 0); }
        else if j == 5 { assert((3nat) % (13nat) != 0); }
        else if j == 6 { assert((3nat) % (17nat) != 0); }
        else if j == 7 { assert((3nat) % (19nat) != 0); }
        else if j == 8 { assert((3nat) % (23nat) != 0); }
        else if j == 9 { assert((3nat) % (29nat) != 0); }
        else if j == 10 { assert((3nat) % (31nat) != 0); }
        else if j == 11 { assert((3nat) % (37nat) != 0); }
    }
    assert forall|j: int| 0 <= j < 12 && #[trigger] (s[2] as nat % s[j] as nat) == 0 implies j == 2 by {
        if j == 0 { assert((5nat) % (2nat) != 0); }
        else if j == 1 { assert((5nat) % (3nat) != 0); }
        else if j == 2 { assert((5nat) % (5nat) == 0); }
        else if j == 3 { assert((5nat) % (7nat) != 0); }
        else if j == 4 { assert((5nat) % (11nat) != 0); }
        else if j == 5 { assert((5nat) % (13nat) != 0); }
        else if j == 6 { assert((5nat) % (17nat) != 0); }
        else if j == 7 { assert((5nat) % (19nat) != 0); }
        else if j == 8 { assert((5nat) % (23nat) != 0); }
        else if j == 9 { assert((5nat) % (29nat) != 0); }
        else if j == 10 { assert((5nat) % (31nat) != 0); }
        else if j == 11 { assert((5nat) % (37nat) != 0); }
    }
    assert forall|j: int| 0 <= j < 12 && #[trigger] (s[3] as nat % s[j] as nat) == 0 implies j == 3 by {
        if j == 0 { assert((7nat) % (2nat) != 0); }
        else if j == 1 { assert((7nat) % (3nat) != 0); }
        else if j == 2 { assert((7nat) % (5nat) != 0); }
        else if j == 3 { assert((7nat) % (7nat) == 0); }
        else if j == 4 { assert((7nat) % (11nat) != 0); }
        else if j == 5 { assert((7nat) % (13nat) != 0); }
        else if j == 6 { assert((7nat) % (17nat) != 0); }
        else if j == 7 { assert((7nat) % (19nat) != 0); }
        else if j == 8 { assert((7nat) % (23nat) != 0); }
        else if j == 9 { assert((7nat) % (29nat) != 0); }
        else if j == 10 { assert((7nat) % (31nat) != 0); }
        else if j == 11 { assert((7nat) % (37nat) != 0); }
    }
    assert forall|j: int| 0 <= j < 12 && #[trigger] (s[4] as nat % s[j] as nat) == 0 implies j == 4 by {
        if j == 0 { assert((11nat) % (2nat) != 0); }
        else if j == 1 { assert((11nat) % (3nat) != 0); }
        else if j == 2 { assert((11nat) % (5nat) != 0); }
        else if j == 3 { assert((11nat) % (7nat) != 0); }
        else if j == 4 { assert((11nat) % (11nat) == 0); }
        else if j == 5 { assert((11nat) % (13nat) != 0); }
        else if j == 6 { assert((11nat) % (17nat) != 0); }
        else if j == 7 { assert((11nat) % (19nat) != 0); }
        else if j == 8 { assert((11nat) % (23nat) != 0); }
        else if j == 9 { assert((11nat) % (29nat) != 0); }
        else if j == 10 { assert((11nat) % (31nat) != 0); }
        else if j == 11 { assert((11nat) % (37nat) != 0); }
    }
    assert forall|j: int| 0 <= j < 12 && #[trigger] (s[5] as nat % s[j] as nat) == 0 implies j == 5 by {
        if j == 0 { assert((13nat) % (2nat) != 0); }
        else if j == 1 { assert((13nat) % (3nat) != 0); }
        else if j == 2 { assert((13nat) % (5nat) != 0); }
        else if j == 3 { assert((13nat) % (7nat) != 0); }
        else if j == 4 { assert((13nat) % (11nat) != 0); }
        else if j == 5 { assert((13nat) % (13nat) == 0); }
        else if j == 6 { assert((13nat) % (17nat) != 0); }
        else if j == 7 { assert((13nat) % (19nat) != 0); }
        else if j == 8 { assert((13nat) % (23nat) != 0); }
        else if j == 9 { assert((13nat) % (29nat) != 0); }
        else if j == 10 { assert((13nat) % (31nat) != 0); }
        else if j == 11 { assert((13nat) % (37nat) != 0); }
    }
    assert forall|j: int| 0 <= j < 12 && #[trigger] (s[6] as nat % s[j] as nat) == 0 implies j == 6 by {
        if j == 0 { assert((17nat) % (2nat) != 0); }
        else if j == 1 { assert((17nat) % (3nat) != 0); }
        else if j == 2 { assert((17nat) % (5nat) != 0); }
        else if j == 3 { assert((17nat) % (7nat) != 0); }
        else if j == 4 { assert((17nat) % (11nat) != 0); }
        else if j == 5 { assert((17nat) % (13nat) != 0); }
        else if j == 6 { assert((17nat) % (17nat) == 0); }
        else if j == 7 { assert((17nat) % (19nat) != 0); }
        else if j == 8 { assert((17nat) % (23nat) != 0); }
        else if j == 9 { assert((17nat) % (29nat) != 0); }
        else if j == 10 { assert((17nat) % (31nat) != 0); }
        else if j == 11 { assert((17nat) % (37nat) != 0); }
    }
    assert forall|j: int| 0 <= j < 12 && #[trigger] (s[7] as nat % s[j] as nat) == 0 implies j == 7 by {
        if j == 0 { assert((19nat) % (2nat) != 0); }
        else if j == 1 { assert((19nat) % (3nat) != 0); }
        else if j == 2 { assert((19nat) % (5nat) != 0); }
        else if j == 3 { assert((19nat) % (7nat) != 0); }
        else if j == 4 { assert((19nat) % (11nat) != 0); }
        else if j == 5 { assert((19nat) % (13nat) != 0); }
        else if j == 6 { assert((19nat) % (17nat) != 0); }
        else if j == 7 { assert((19nat) % (19nat) == 0); }
        else if j == 8 { assert((19nat) % (23nat) != 0); }
        else if j == 9 { assert((19nat) % (29nat) != 0); }
        else if j == 10 { assert((19nat) % (31nat) != 0); }
        else if j == 11 { assert((19nat) % (37nat) != 0); }
    }
    assert forall|j: int| 0 <= j < 12 && #[trigger] (s[8] as nat % s[j] as nat) == 0 implies j == 8 by {
        if j == 0 { assert((23nat) % (2nat) != 0); }
        else if j == 1 { assert((23nat) % (3nat) != 0); }
        else if j == 2 { assert((23nat) % (5nat) != 0); }
        else if j == 3 { assert((23nat) % (7nat) != 0); }
        else if j == 4 { assert((23nat) % (11nat) != 0); }
        else if j == 5 { assert((23nat) % (13nat) != 0); }
        else if j == 6 { assert((23nat) % (17nat) != 0); }
        else if j == 7 { assert((23nat) % (19nat) != 0); }
        else if j == 8 { assert((23nat) % (23nat) == 0); }
        else if j == 9 { assert((23nat) % (29nat) != 0); }
        else if j == 10 { assert((23nat) % (31nat) != 0); }
        else if j == 11 { assert((23nat) % (37nat) != 0); }
    }
    assert forall|j: int| 0 <= j < 12 && #[trigger] (s[9] as nat % s[j] as nat) == 0 implies j == 9 by {
        if j == 0 { assert((29nat) % (2nat) != 0); }
        else if j == 1 { assert((29nat) % (3nat) != 0); }
        else if j == 2 { assert((29nat) % (5nat) != 0); }
        else if j == 3 { assert((29nat) % (7nat) != 0); }
        else if j == 4 { assert((29nat) % (11nat) != 0); }
        else if j == 5 { assert((29nat) % (13nat) != 0); }
        else if j == 6 { assert((29nat) % (17nat) != 0); }
        else if j == 7 { assert((29nat) % (19nat) != 0); }
        else if j == 8 { assert((29nat) % (23nat) != 0); }
        else if j == 9 { assert((29nat) % (29nat) == 0); }
        else if j == 10 { assert((29nat) % (31nat) != 0); }
        else if j == 11 { assert((29nat) % (37nat) != 0); }
    }
    assert forall|j: int| 0 <= j < 12 && #[trigger] (s[10] as nat % s[j] as nat) == 0 implies j == 10 by {
        if j == 0 { assert((31nat) % (2nat) != 0); }
        else if j == 1 { assert((31nat) % (3nat) != 0); }
        else if j == 2 { assert((31nat) % (5nat) != 0); }
        else if j == 3 { assert((31nat) % (7nat) != 0); }
        else if j == 4 { assert((31nat) % (11nat) != 0); }
        else if j == 5 { assert((31nat) % (13nat) != 0); }
        else if j == 6 { assert((31nat) % (17nat) != 0); }
        else if j == 7 { assert((31nat) % (19nat) != 0); }
        else if j == 8 { assert((31nat) % (23nat) != 0); }
        else if j == 9 { assert((31nat) % (29nat) != 0); }
        else if j == 10 { assert((31nat) % (31nat) == 0); }
        else if j == 11 { assert((31nat) % (37nat) != 0); }
    }
    assert forall|j: int| 0 <= j < 12 && #[trigger] (s[11] as nat % s[j] as nat) == 0 implies j == 11 by {
        if j == 0 { assert((37nat) % (2nat) != 0); }
        else if j == 1 { assert((37nat) % (3nat) != 0); }
        else if j == 2 { assert((37nat) % (5nat) != 0); }
        else if j == 3 { assert((37nat) % (7nat) != 0); }
        else if j == 4 { assert((37nat) % (11nat) != 0); }
        else if j == 5 { assert((37nat) % (13nat) != 0); }
        else if j == 6 { assert((37nat) % (17nat) != 0); }
        else if j == 7 { assert((37nat) % (19nat) != 0); }
        else if j == 8 { assert((37nat) % (23nat) != 0); }
        else if j == 9 { assert((37nat) % (29nat) != 0); }
        else if j == 10 { assert((37nat) % (31nat) != 0); }
        else if j == 11 { assert((37nat) % (37nat) == 0); }
    }
    assert forall|i: int, j: int|
        0 <= i < 12 && 0 <= j < 12 && #[trigger] (s[i] as nat % s[j] as nat) == 0 implies i == j by {
        if i == 0 {
            assert(s[i] == s[0]);
        } else if i == 1 {
            assert(s[i] == s[1]);
        } else if i == 2 {
            assert(s[i] == s[2]);
        } else if i == 3 {
            assert(s[i] == s[3]);
        } else if i == 4 {
            assert(s[i] == s[4]);
        } else if i == 5 {
            assert(s[i] == s[5]);
        } else if i == 6 {
            assert(s[i] == s[6]);
        } else if i == 7 {
            assert(s[i] == s[7]);
        } else if i == 8 {
            assert(s[i] == s[8]);
        } else if i == 9 {
            assert(s[i] == s[9]);
        } else if i == 10 {
            assert(s[i] == s[10]);
        } else if i == 11 {
            assert(s[i] == s[11]);
        }
    }
}

/// Strips the factors `2` from `n - 1`: returns `(d, s)` with `n - 1 = d * 2^s`, `d` odd.
fn split_two_power(m: u64) -> (r: (u64, u32))
    requires
        m > 0,
    ensures
        r.0 == odd_part(m as nat),
        r.1 == two_adic_exponent(m as nat),
        r.0 * vstd::arithmetic::power2::pow2(r.1 as nat) == m,
        r.0 % 2 == 1,
{
    let mut d = m;
    let mut s: u32 = 0;
    proof {
        vstd::arithmetic::power2::lemma2_to64();
    }
    while d % 2 == 0
        invariant
            d > 0,
            s <= 64,
            odd_part(d as nat) == odd_part(m as nat),
            s + two_adic_exponent(d as nat) == two_adic_exponent(m as nat),
            d * vstd::arithmetic::power2::pow2(s as nat) == m,
            d * vstd::arithmetic::power2::pow2(s as nat) < 0x1_0000_0000_0000_0000,
        decreases d,
    {
        proof {
            vstd::arithmetic::power2::lemma_pow2_adds(s as nat, 1);
            vstd::arithmetic::power2::lemma2_to64();
            assert((d / 2) * (vstd::arithmetic::power2::pow2(s as nat) * 2) == d * vstd::arithmetic::power2::pow2(s as nat)) by (nonlinear_arith)
                requires
                    d % 2 == 0,
            ;
            assert(s < 64) by {
                if s >= 64 {
                    vstd::arithmetic::power2::lemma2_to64_rest();
                    if s > 64 {
                        vstd::arithmetic::power2::lemma_pow2_strictly_increases(64, s as nat);
                    }
                    assert(d * vstd::arithmetic::power2::pow2(s as nat) >= vstd::arithmetic::power2::pow2(s as nat)) by (nonlinear_arith)
                        requires
                            d >= 1,
                            vstd::arithmetic::power2::pow2(s as nat) >= 0,
                    ;
                }
            }
        }
        d = d / 2;
        s = s + 1;
    }
    (d, s)
}

/// Primality by trial division: `n` is prime exactly when no `d` with `2 <= d` and
/// `d * d <= n` divides it. Exact for every `n`, at the cost of up to `sqrt(n)`
/// divisions; it certifies the primality that prime-field moduli are required to have.
pub fn is_prime_by_trial_division(n: u64) -> (b: bool)
    ensures
        b == is_prime(n as nat),
{
    if n < 2 {
        return false;
    }
    let mut d: u64 = 2;
    while d <= n / d
        invariant
            n >= 2,
            2 <= d,
            d <= n,
            forall|e: nat| 2 <= e < d ==> #[trigger] (n as nat % e) != 0,
        decreases n - d,
    {
        if n % d == 0 {
            proof {
                assert(d * (n / d) <= n) by (nonlinear_arith)
                    requires
                        d > 0,
                ;
                assert(d < n) by (nonlinear_arith)
                    requires
                        d <= n / d,
                        d >= 2,
                        d * (n / d) <= n,
                ;
                assert((n as nat) % (d as nat) == 0);
            }
            return false;
        }
        proof {
            assert(d + 1 <= n) by (nonlinear_arith)
                requires
                    d <= n / d,
                    d >= 2,
            ;
        }
        d = d + 1;
    }
    proof {
        assert forall|e: nat| 1 < e < n implies #[trigger] (n as nat % e) != 0 by {
            if n as nat % e == 0 && e >= d {
                let f = (n as nat) / e;
                vstd::arithmetic::div_mod::lemma_fundamental_div_mod(n as int, e as int);
                assert(n == e * f);
                assert(f < d && f >= 2) by (nonlinear_arith)
                    requires
                        n == e * f,
                        e >= d,
                        e < n,
                        d > n / d,
                        d >= 2,
                        n >= 2,
                ;
                assert(n as nat % f == 0) by (nonlinear_arith)
                    requires
                        n == e * f,
                        f >= 2,
                ;
            }
        }
    }
    true
}

/// The probable-prime test for a 64-bit `n`: trial division by the primes below 40,
/// then the strong probable-prime test to the bases
/// `2, 325, 9375, 28178, 450775, 9780504, 1795265022`.
fn passes_probable_prime_test(n: u64) -> (b: bool)
    ensures
        b == passes_primality_test(n as nat),
{
    let small: Vec<u64> = vec![2u64, 3, 5, 7, 11, 13, 17, 19, 23, 29, 31, 37];
    let bases: Vec<u64> = vec![2u64, 325, 9_375, 28_178, 450_775, 9_780_504, 1_795_265_022];
    proof {
        assert(small@ =~= small_primes());
        assert(bases@ =~= mr_bases());
        lemma_small_primes_table();
    }
    if n < 2 {
        return false;
    }
    let mut i: usize = 0;
    while i < small.len()
        invariant
            n >= 2,
            small@ == small_primes(),
            small@.len() == 12,
            i <= 12,
            forall|k: int| 0 <= k < i ==> #[trigger] (n as nat % (small_primes()[k] as nat)) != 0,
            forall|k: int| 0 <= k < i ==> #[trigger] small_primes()[k] != n,
        decreases 12 - i,
    {
        let p = small[i];
        proof {
            lemma_small_primes_table();
        }
        if n == p {
            proof {
                assert(small_primes().contains(n));
                assert forall|k: int| 0 <= k < 12 && #[trigger] (n as nat % (small_primes()[k] as nat)) == 0 implies n == small_primes()[k] by {
                    assert(small_primes()[i as int] as nat % small_primes()[k] as nat == 0);
                }
            }
            return true;
        }
        if n % p == 0 {
            proof {
                assert(!small_primes().contains(n)) by {
                    if small_primes().contains(n) {
                        let k = choose|k: int| 0 <= k < 12 && small_primes()[k] == n;
                        assert(small_primes()[k] as nat % small_primes()[i as int] as nat == 0);
                    }
                }
            }
            return false;
        }
        i = i + 1;
    }
    proof {
        assert(!small_primes().contains(n)) by {
            if small_primes().contains(n) {
                let k = choose|k: int| 0 <= k < 12 && small_primes()[k] == n;
                assert(small_primes()[k] != n);
            }
        }
        assert forall|k: int| 0 <= k < 12 && #[trigger] (n as nat % (small_primes()[k] as nat)) == 0 implies n == small_primes()[k] by {
        }
    }
    // n is odd and at least 41 here.
    let (d, s) = split_two_power(n - 1);
    let mut base_idx: usize = 0;
    while base_idx < bases.len()
        invariant
            n >= 2,
            n % 2 == 1,
            bases@ == mr_bases(),
            base_idx <= 7,
            !small_primes().contains(n),
            forall|k: int| 0 <= k < 12 && #[trigger] (n as nat % (small_primes()[k] as nat)) == 0 ==> n == small_primes()[k],
            d == odd_part((n - 1) as nat),
            s == two_adic_exponent((n - 1) as nat),
            forall|j: int|
                0 <= j < base_idx ==> (#[trigger] mr_bases()[j] as nat) % (n as nat) == 0 || strong_probable_prime(
                    n as nat,
                    (mr_bases()[j] as nat) % (n as nat),
                ),
        decreases 7 - base_idx,
    {
        let a = bases[base_idx] % n;
        let ghost j = base_idx as int;
        base_idx = base_idx + 1;
        if a == 0 {
            continue;
        }
        let mut x = pow_mod_const(a, d, n);
        if x == 1 || x == n - 1 {
            proof {
                if x == n - 1 {
                    vstd::arithmetic::power2::lemma2_to64();
                    assert((d as nat) * vstd::arithmetic::power2::pow2(0) == d);
                    assert(0 < s) by {
                        assert(s == two_adic_exponent((n - 1) as nat));
                    }
                    assert(pow(a as int, (d as nat) * vstd::arithmetic::power2::pow2(0)) % (n as int) == n - 1);
                }
            }
            continue;
        }
        let ghost x0 = x;
        let mut witness = true;
        let mut round: u32 = 1;
        proof {
            vstd::arithmetic::power2::lemma2_to64();
            assert((d as nat) * vstd::arithmetic::power2::pow2(0) == d as nat);
        }
        while round < s
            invariant_except_break
                1 <= round,
                x as int == pow(a as int, (d as nat) * vstd::arithmetic::power2::pow2((round - 1) as nat)) % (n as int),
                witness,
                forall|r: nat| r < round ==> #[trigger] (pow(a as int, (d as nat) * vstd::arithmetic::power2::pow2(r)) % (n as int)) != n - 1,
            invariant
                n >= 2,
                s == two_adic_exponent((n - 1) as nat),
                d == odd_part((n - 1) as nat),
            ensures
                witness ==> forall|r: nat| r < s ==> #[trigger] (pow(a as int, (d as nat) * vstd::arithmetic::power2::pow2(r)) % (n as int)) != n - 1,
                !witness ==> exists|r: nat| r < s && #[trigger] (pow(a as int, (d as nat) * vstd::arithmetic::power2::pow2(r)) % (n as int)) == n - 1,
            decreases s - round,
        {
            proof {
                lemma_square_step(a as int, d as nat, (round - 1) as nat, n as int);
                assert(((round - 1) as nat + 1) as nat == round as nat);
            }
            x = mul_mod_const(x, x, n);
            if x == n - 1 {
                proof {
                    assert(pow(a as int, (d as nat) * vstd::arithmetic::power2::pow2(round as nat)) % (n as int) == n - 1);
                }
                witness = false;
                break;
            }
            round = round + 1;
        }
        if witness {
            proof {
                assert(pow(a as int, d as nat) % (n as int) == x0);
                assert(!strong_probable_prime(n as nat, a as nat));
                assert(mr_bases()[j] as nat % (n as nat) == a);
            }
            return false;
        }
    }
    true
}

/// `s` with `x` appended has product `prod(s) * x`.
proof fn lemma_seq_prod_push(s: Seq<u64>, x: u64)
    ensures
        seq_prod(s.push(x)) == seq_prod(s) * (x as nat),
{
    assert(s.push(x).drop_last() =~= s);
}

/// `x^2 + c mod m`, the step of Pollard's rho walk.
fn rho_step(x: u64, c: u64, m: u64) -> (r: u64)
    requires
        m > 0,
        c < m,
    ensures
        r < m,
{
    let v = mul_mod_const(x, x, m);
    if v >= m - c {
        v - (m - c)
    } else {
        v + c
    }
}

/// A proper divisor of `m` found by Pollard's rho method, if the walk finds one.
fn rho_factor(m: u64) -> (r: Option<u64>)
    requires
        m >= 4,
    ensures
        r matches Some(f) ==> 1 < f < m && m % f == 0,
{
    let mut c: u64 = 1;
    while c <= 3
        invariant
            m >= 4,
            1 <= c <= 4,
        decreases 4 - c,
    {
        let mut x: u64 = 2;
        let mut y: u64 = 2;
        let mut steps: u32 = 0;
        while steps < 0x4_0000
            invariant
                m >= 4,
                1 <= c <= 3,
            decreases 0x4_0000 - steps,
        {
            x = rho_step(x, c, m);
            y = rho_step(y, c, m);
            y = rho_step(y, c, m);
            let diff = if x > y {
                x - y
            } else {
                y - x
            };
            let g = gcd(diff, m);
            if g == m {
                break;
            }
            if g > 1 {
                proof {
                    lemma_gcd_divides(diff as nat, m as nat);
                    if g > m {
                        vstd::arithmetic::div_mod::lemma_small_mod(m as nat, g as nat);
                    }
                }
                return Some(g);
            }
            steps = steps + 1;
        }
        c = c + 1;
    }
    None
}

/// Certifies that `n` is prime with Lucas's criterion: factors `n - 1` into primes (by
/// trial division below `2^16`, then by certifying or splitting the remaining
/// cofactors), and looks for a base below `1024` that meets the criterion. `true` only
/// with such a certificate.
fn lucas_prime(n: u64) -> (b: bool)
    ensures
        b ==> is_prime(n as nat),
    decreases n,
{
    if n < 2 {
        return false;
    }
    if n == 2 {
        return true;
    }
    let m0 = n - 1;
    let mut fs: Vec<u64> = Vec::new();
    let mut m = m0;
    let mut d: u64 = 2;
    proof {
        assert(fs@ =~= Seq::<u64>::empty());
        assert(seq_prod(fs@) == 1);
    }
    while d < 0x1_0000 && d <= m / d
        invariant
            n >= 3,
            m0 == n - 1,
            1 <= m <= m0,
            2 <= d <= 0x1_0000,
            seq_prod(fs@) * (m as nat) == m0 as nat,
            all_prime(fs@),
            forall|e: nat| 2 <= e < d ==> #[trigger] ((m as nat) % e) != 0,
        decreases m, 0x1_0000 - d,
    {
        if m % d == 0 {
            proof {
                crate::arith::rns::lemma_least_divisor_prime(m as nat, d as nat);
                lemma_seq_prod_push(fs@, d);
            }
            let ghost old_m = m;
            let ghost old_fs = fs@;
            fs.push(d);
            m = m / d;
            proof {
                vstd::arithmetic::div_mod::lemma_fundamental_div_mod(old_m as int, d as int);
                assert(old_m == d * m);
                assert(seq_prod(fs@) * (m as nat) == m0 as nat) by (nonlinear_arith)
                    requires
                        seq_prod(fs@) == seq_prod(old_fs) * (d as nat),
                        seq_prod(old_fs) * (old_m as nat) == m0 as nat,
                        old_m == d * m,
                ;
                assert(m >= 1) by (nonlinear_arith)
                    requires
                        old_m == d * m,
                        old_m >= 1,
                ;
                assert(m < old_m) by (nonlinear_arith)
                    requires
                        old_m == d * m,
                        d >= 2,
                        m >= 1,
                ;
                assert forall|e: nat| 2 <= e < d implies #[trigger] ((m as nat) % e) != 0 by {
                    if (m as nat) % e == 0 {
                        assert(old_m as nat % m as nat == 0) by {
                            vstd::arithmetic::div_mod::lemma_mod_multiples_basic(d as int, m as int);
                            assert(d * m == m * d) by (nonlinear_arith);
                        }
                        lemma_divides_trans(e, m as nat, old_m as nat);
                    }
                }
                assert(all_prime(fs@)) by {
                    assert forall|k: int| 0 <= k < fs@.len() implies is_prime(#[trigger] fs@[k] as nat) by {
                        if k < old_fs.len() {
                            assert(fs@[k] == old_fs[k]);
                        }
                    }
                }
            }
        } else {
            d = d + 1;
        }
    }
    let mut work: Vec<u64> = Vec::new();
    proof {
        assert(work@ =~= Seq::<u64>::empty());
        assert(seq_prod(work@) == 1);
    }
    if m > 1 {
        if d > m / d {
            proof {
                assert((d as nat) * (d as nat) > m as nat) by (nonlinear_arith)
                    requires
                        d > m / d,
                        d >= 2,
                ;
                crate::arith::rns::lemma_no_small_divisor_prime(m as nat, d as nat);
                lemma_seq_prod_push(fs@, m);
            }
            let ghost old_fs = fs@;
            fs.push(m);
            proof {
                assert(all_prime(fs@)) by {
                    assert forall|k: int| 0 <= k < fs@.len() implies is_prime(#[trigger] fs@[k] as nat) by {
                        if k < old_fs.len() {
                            assert(fs@[k] == old_fs[k]);
                        }
                    }
                }
                assert(seq_prod(work@) * seq_prod(fs@) == m0 as nat);
            }
        } else {
            proof {
                lemma_seq_prod_push(work@, m);
            }
            work.push(m);
            proof {
                assert(seq_prod(work@) * seq_prod(fs@) == m0 as nat) by (nonlinear_arith)
                    requires
                        seq_prod(work@) == 1 * (m as nat),
                        seq_prod(fs@) * (m as nat) == m0 as nat,
                ;
            }
        }
    } else {
        proof {
            assert(seq_prod(work@) * seq_prod(fs@) == m0 as nat) by (nonlinear_arith)
                requires
                    seq_prod(work@) == 1,
                    m == 1,
                    seq_prod(fs@) * (m as nat) == m0 as nat,
            ;
        }
    }
    let mut fuel: u32 = 256;
    while work.len() > 0
        invariant
            n >= 3,
            m0 == n - 1,
            seq_prod(work@) * seq_prod(fs@) == m0 as nat,
            all_prime(fs@),
            forall|k: int| 0 <= k < work@.len() ==> 2 <= #[trigger] work@[k] <= m0,
        decreases fuel,
    {
        if fuel == 0 {
            return false;
        }
        fuel = fuel - 1;
        let ghost old_work = work@;
        let ghost old_fs = fs@;
        let c = work.pop().unwrap();
        proof {
            assert(old_work =~= work@.push(c));
            lemma_seq_prod_push(work@, c);
            assert(old_work[old_work.len() - 1] == c);
        }
        if lucas_prime(c) {
            fs.push(c);
            proof {
                lemma_seq_prod_push(old_fs, c);
                assert(seq_prod(work@) * seq_prod(fs@) == m0 as nat) by (nonlinear_arith)
                    requires
                        seq_prod(old_work) == seq_prod(work@) * (c as nat),
                        seq_prod(fs@) == seq_prod(old_fs) * (c as nat),
                        seq_prod(old_work) * seq_prod(old_fs) == m0 as nat,
                ;
                assert(all_prime(fs@)) by {
                    assert forall|k: int| 0 <= k < fs@.len() implies is_prime(#[trigger] fs@[k] as nat) by {
                        if k < old_fs.len() {
                            assert(fs@[k] == old_fs[k]);
                        }
                    }
                }
                assert forall|k: int| 0 <= k < work@.len() implies 2 <= #[trigger] work@[k] <= m0 by {
                    assert(work@[k] == old_work[k]);
                }
            }
        } else {
            if c < 4 {
                return false;
            }
            match rho_factor(c) {
                Some(f) => {
                    let g = c / f;
                    let ghost mid = work@;
                    work.push(f);
                    work.push(g);
                    proof {
                        vstd::arithmetic::div_mod::lemma_fundamental_div_mod(c as int, f as int);
                        assert(c == f * g);
                        lemma_seq_prod_push(mid, f);
                        lemma_seq_prod_push(mid.push(f), g);
                        assert(work@ =~= mid.push(f).push(g));
                        assert(seq_prod(work@) * seq_prod(fs@) == m0 as nat) by (nonlinear_arith)
                            requires
                                seq_prod(old_work) == seq_prod(mid) * (c as nat),
                                seq_prod(work@) == seq_prod(mid) * (f as nat) * (g as nat),
                                seq_prod(old_work) * seq_prod(fs@) == m0 as nat,
                                c == f * g,
                        ;
                        assert(2 <= g < c) by (nonlinear_arith)
                            requires
                                c == f * g,
                                1 < f < c,
                        ;
                        assert forall|k: int| 0 <= k < work@.len() implies 2 <= #[trigger] work@[k] <= m0 by {
                            if k < mid.len() {
                                assert(work@[k] == old_work[k]);
                            }
                        }
                    }
                },
                None => {
                    return false;
                },
            }
        }
    }
    proof {
        assert(seq_prod(work@) == 1);
    }
    let mut a: u64 = 2;
    while a < 1024
        invariant
            n >= 3,
            m0 == n - 1,
            seq_prod(fs@) == m0 as nat,
            all_prime(fs@),
        decreases 1024 - a,
    {
        let full = pow_mod_const(a, m0, n);
        if full == 1 {
            let mut k: usize = 0;
            let mut ok = true;
            while k < fs.len()
                invariant_except_break
                    ok,
                    forall|j: int|
                        0 <= j < k ==> #[trigger] (pow(a as int, ((n - 1) as nat / (fs@[j] as nat)) as nat) % (n as int))
                            != 1,
                invariant
                    n >= 3,
                    m0 == n - 1,
                    k <= fs.len(),
                    all_prime(fs@),
                ensures
                    ok ==> forall|j: int|
                        0 <= j < fs@.len() ==> #[trigger] (pow(a as int, ((n - 1) as nat / (fs@[j] as nat)) as nat) % (
                        n as int)) != 1,
                decreases fs.len() - k,
            {
                let q = fs[k];
                proof {
                    assert(is_prime(fs@[k as int] as nat));
                }
                if pow_mod_const(a, m0 / q, n) == 1 {
                    ok = false;
                    break;
                }
                k = k + 1;
            }
            if ok {
                proof {
                    assert(lucas_witness(n as nat, a as nat, fs@));
                    lemma_lucas(n as nat, a as nat, fs@);
                }
                return true;
            }
        }
        a = a + 1;
    }
    false
}

/// Deterministic primality test for a 64-bit `n`: `true` exactly when `n` is prime.
/// Small `n` go by trial division. Otherwise the strong probable-prime test to the
/// bases `2, 325, 9375, 28178, 450775, 9780504, 1795265022` decides which way to
/// look: a Lucas certificate when it passes, a factor by Pollard's rho when it fails;
/// trial division settles what neither finds.
pub fn is_prime_const(n: u64) -> (b: bool)
    ensures
        b == is_prime(n as nat),
{
    if n >= 0x10_0000 {
        if passes_probable_prime_test(n) {
            if lucas_prime(n) {
                return true;
            }
        } else {
            match rho_factor(n) {
                Some(f) => {
                    proof {
                        assert((n as nat) % (f as nat) == 0);
                    }
                    return false;
                },
                None => {},
            }
        }
    }
    is_prime_by_trial_division(n)
}

/// Squaring `a^(d 2^r)` gives `a^(d 2^(r+1))` modulo `n`.
proof fn lemma_square_step(a: int, d: nat, r: nat, n: int)
    requires
        n > 0,
    ensures
        ((pow(a, d * vstd::arithmetic::power2::pow2(r)) % n) * (pow(a, d * vstd::arithmetic::power2::pow2(r)) % n)) % n
            == pow(a, d * vstd::arithmetic::power2::pow2(r + 1)) % n,
{
    let e = d * vstd::arithmetic::power2::pow2(r);
    let y = pow(a, e);
    vstd::arithmetic::div_mod::lemma_mul_mod_noop(y, y, n);
    lemma_pow_adds(a, e, e);
    vstd::arithmetic::power2::lemma_pow2_adds(r, 1);
    vstd::arithmetic::power2::lemma2_to64();
    assert(e + e == d * vstd::arithmetic::power2::pow2(r + 1)) by (nonlinear_arith)
        requires
            e == d * vstd::arithmetic::power2::pow2(r),
            vstd::arithmetic::power2::pow2(r + 1) == vstd::arithmetic::power2::pow2(r) * 2,
    ;
}

} // verus!
