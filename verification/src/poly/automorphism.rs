//! Ring automorphisms for negacyclic polynomial rings.
//!
//! For odd `k` coprime to `2n`, the map `X -> X^k` permutes the monomials of
//! `Z_q[X] / (X^n + 1)` up to sign: `X^i` goes to `X^(ik mod 2n)`, and a power
//! `X^(n + j)` equals `-X^j`.
use crate::arith::ntt::{lemma_add_zero_left, lemma_neg_neg};
use crate::arith::ring::{Ring, seq_wf};
use crate::arith::rns::gcd_spec;
use vstd::prelude::*;

verus! {

/// Coefficient `j` of the image of `x` under `X -> X^k`, summed over the first `m`
/// input coefficients: `x[i]` lands on `X^((ik) mod 2n)`, added to coefficient `j`
/// when that exponent is `j` and subtracted when it is `j + n`.
pub open spec fn automorphism_coeff<R: Ring>(x: Seq<R>, k: nat, n: nat, j: nat, m: nat) -> R
    decreases m,
{
    if m == 0 {
        R::zero_spec()
    } else {
        let i = (m - 1) as nat;
        let prev = automorphism_coeff(x, k, n, j, i);
        let mapped = (i * k) % (2 * n);
        if mapped == j {
            R::add_spec(prev, x[i as int])
        } else if mapped == j + n {
            R::sub_spec(prev, x[i as int])
        } else {
            prev
        }
    }
}

/// The image of `x` (of length `n`) under `X -> X^k`.
pub open spec fn automorphism_spec<R: Ring>(x: Seq<R>, k: nat) -> Seq<R> {
    Seq::new(x.len(), |j: int| automorphism_coeff(x, k, x.len(), j as nat, x.len()))
}

/// Apply the automorphism `X -> X^k` in `Z_q[X] / (X^n + 1)`.
pub fn apply_automorphism<R: Ring>(coeffs: &mut [R], k: usize, n: usize)
    requires
        R::params_ok(),
        seq_wf(old(coeffs)@),
        old(coeffs)@.len() == n,
        k % 2 == 1,
        2 * n <= usize::MAX,
        (n - 1) * k <= usize::MAX,
        gcd_spec(k as nat, 2 * n as nat) == 1,
    ensures
        final(coeffs)@ == automorphism_spec(old(coeffs)@, k as nat),
        seq_wf(final(coeffs)@),
{
    let ghost x = coeffs@;
    let modulus = 2 * n;
    let mut out: Vec<R> = Vec::new();
    let mut z: usize = 0;
    while z < n
        invariant
            R::params_ok(),
            z <= n,
            out@.len() == z,
            forall|j: int| 0 <= j < z ==> #[trigger] out@[j] == R::zero_spec(),
        decreases n - z,
    {
        out.push(R::zero());
        z = z + 1;
    }
    proof {
        R::lemma_identities_wf();
    }
    let mut i: usize = 0;
    while i < n
        invariant
            x == coeffs@,
            x.len() == n,
            seq_wf(x),
            modulus == 2 * n,
            (n - 1) * k <= usize::MAX,
            i <= n,
            out@.len() == n,
            seq_wf(out@),
            forall|j: int| 0 <= j < n ==> #[trigger] out@[j] == automorphism_coeff(x, k as nat, n as nat, j as nat, i as nat),
        decreases n - i,
    {
        proof {
            assert(i * k <= (n - 1) * k) by (nonlinear_arith)
                requires
                    i < n,
            ;
        }
        let mapped = (i * k) % modulus;
        let coeff = coeffs[i];
        if mapped < n {
            let v = R::add_ref(&out[mapped], &coeff);
            out.set(mapped, v);
        } else {
            let v = R::sub_ref(&out[mapped - n], &coeff);
            out.set(mapped - n, v);
        }
        i = i + 1;
    }
    let mut j: usize = 0;
    while j < n
        invariant
            coeffs@.len() == n,
            out@.len() == n,
            seq_wf(out@),
            j <= n,
            forall|t: int| 0 <= t < j ==> #[trigger] coeffs@[t] == out@[t],
            forall|t: int| j <= t < n ==> #[trigger] coeffs@[t] == x[t],
            seq_wf(x),
        decreases n - j,
    {
        coeffs[j] = out[j];
        j = j + 1;
    }
    proof {
        assert(coeffs@ =~= automorphism_spec(x, k as nat));
    }
}

/// Apply the Frobenius-like automorphism `sigma_p`.
pub fn frobenius<R: Ring>(coeffs: &mut [R], p: usize, n: usize)
    requires
        R::params_ok(),
        seq_wf(old(coeffs)@),
        old(coeffs)@.len() == n,
        p % 2 == 1,
        2 * n <= usize::MAX,
        (n - 1) * p <= usize::MAX,
        gcd_spec(p as nat, 2 * n as nat) == 1,
    ensures
        final(coeffs)@ == automorphism_spec(old(coeffs)@, p as nat),
        seq_wf(final(coeffs)@),
{
    apply_automorphism(coeffs, p, n);
}


/// The coefficient of `X^t`, for `0 <= t < 2n`, in the polynomial `x` read modulo
/// `X^n + 1`: `x[t]` below `n`, and `-x[t - n]` from `n` on.
pub open spec fn signed_coeff<R: Ring>(x: Seq<R>, t: nat) -> R {
    if t < x.len() {
        x[t as int]
    } else {
        R::neg_spec(x[t - x.len()])
    }
}

/// The map `X -> X^1` is the identity.
proof fn lemma_identity_prefix<R: Ring>(x: Seq<R>, j: nat, m: nat)
    requires
        seq_wf(x),
        j < x.len(),
        m <= x.len(),
    ensures
        automorphism_coeff(x, 1, x.len(), j, m) == (if j < m {
            x[j as int]
        } else {
            R::zero_spec()
        }),
    decreases m,
{
    if m > 0 {
        let i = (m - 1) as nat;
        lemma_identity_prefix(x, j, i);
        vstd::arithmetic::div_mod::lemma_small_mod(i, 2 * x.len());
        assert(i * 1 == i);
        if i == j {
            lemma_add_zero_left(x[j as int]);
        }
    }
}

/// The automorphism `X -> X^1` leaves every polynomial unchanged.
pub proof fn lemma_automorphism_identity<R: Ring>(x: Seq<R>)
    requires
        seq_wf(x),
    ensures
        automorphism_spec(x, 1) == x,
{
    assert forall|j: int| 0 <= j < x.len() implies #[trigger] automorphism_spec(x, 1)[j] == x[j] by {
        lemma_identity_prefix(x, j as nat, x.len());
    }
    assert(automorphism_spec(x, 1) =~= x);
}

/// `(i * k * kinv) mod m = i mod m` when `k * kinv = 1 (mod m)`.
proof fn lemma_mul_inverse_mod(i: int, k: int, kinv: int, m: int)
    requires
        m > 0,
        (k * kinv) % m == 1,
    ensures
        ((i * k) * kinv) % m == i % m,
{
    assert((i * k) * kinv == i * (k * kinv)) by (nonlinear_arith);
    vstd::arithmetic::div_mod::lemma_mul_mod_noop_right(i, k * kinv, m);
}

/// For odd `k`, `n * k = n (mod 2n)`.
proof fn lemma_odd_times_n(n: int, k: int)
    requires
        n > 0,
        k % 2 == 1,
        k >= 0,
    ensures
        (n * k) % (2 * n) == n % (2 * n),
{
    let h = k / 2;
    assert(k == 2 * h + 1);
    assert(n * k == (2 * n) * h + n) by (nonlinear_arith)
        requires
            k == 2 * h + 1,
    ;
    vstd::arithmetic::div_mod::lemma_mod_multiples_vanish(h, n, 2 * n);
}

/// Which input coefficient lands on `X^j` or `X^(j+n)` under `X -> X^k`: with `kinv`
/// the inverse of `k` modulo `2n` and `t0 = j * kinv mod 2n`, input `i` lands on
/// `X^j` exactly when `i = t0`, and on `X^(j+n)` exactly when `i = t0 - n`.
proof fn lemma_preimage(n: nat, k: nat, kinv: nat, j: nat, i: nat)
    requires
        n > 0,
        k % 2 == 1,
        kinv % 2 == 1,
        (k * kinv) % (2 * n) == 1,
        j < n,
        i < n,
    ensures
        ((i * k) % (2 * n) == j) == ((j * kinv) % (2 * n) < n && i == (j * kinv) % (2 * n)),
        ((i * k) % (2 * n) == j + n) == ((j * kinv) % (2 * n) >= n && i + n == (j * kinv) % (2 * n)),
{
    let m = (2 * n) as int;
    let t0 = ((j * kinv) % (2 * n)) as int;
    let ii = i as int;
    let ki = k as int;
    let kv = kinv as int;
    let ji = j as int;
    let ni = n as int;
    assert((kv * ki) % m == 1) by {
        assert(kv * ki == ki * kv) by (nonlinear_arith);
    }
    // i * k * kinv = i
    lemma_mul_inverse_mod(ii, ki, kv, m);
    vstd::arithmetic::div_mod::lemma_small_mod(i, 2 * n);
    vstd::arithmetic::div_mod::lemma_small_mod(j, 2 * n);
    vstd::arithmetic::div_mod::lemma_small_mod(j + n, 2 * n);
    vstd::arithmetic::div_mod::lemma_mul_mod_noop_left(ii * ki, kv, m);
    // n * kinv = n and n * k = n
    lemma_odd_times_n(ni, kv);
    lemma_odd_times_n(ni, ki);
    vstd::arithmetic::div_mod::lemma_small_mod(n, 2 * n);
    vstd::arithmetic::div_mod::lemma_mod_bound(ji * kv, m);
    // forward directions
    if (i * k) % (2 * n) == j {
        // i = i k kinv = j kinv = t0
        assert(ii % m == ((ii * ki) % m * kv) % m);
        assert(ii == t0);
    }
    if (i * k) % (2 * n) == j + n {
        // i = (j + n) kinv = t0 + n (mod 2n)
        assert(ii % m == ((ii * ki) % m * kv) % m);
        assert(((ji + ni) * kv) == ji * kv + ni * kv) by (nonlinear_arith);
        vstd::arithmetic::div_mod::lemma_add_mod_noop(ji * kv, ni * kv, m);
        assert(ii == (t0 + ni) % m);
        if t0 < ni {
            vstd::arithmetic::div_mod::lemma_small_mod((t0 + ni) as nat, 2 * n);
        } else {
            vstd::arithmetic::div_mod::lemma_mod_sub_multiples_vanish(t0 + ni, m);
            vstd::arithmetic::div_mod::lemma_small_mod((t0 + ni - m) as nat, 2 * n);
        }
    }
    // backward directions
    if t0 < ni && ii == t0 {
        // i k = j kinv k = j
        vstd::arithmetic::div_mod::lemma_mul_mod_noop_left(ji * kv, ki, m);
        lemma_mul_inverse_mod(ji, kv, ki, m);
    }
    if t0 >= ni && ii + ni == t0 {
        // i k = (t0 - n) k = j - n k = j + n (mod 2n)
        vstd::arithmetic::div_mod::lemma_mul_mod_noop_left(ji * kv, ki, m);
        lemma_mul_inverse_mod(ji, kv, ki, m);
        assert(t0 * ki == ii * ki + ni * ki) by (nonlinear_arith)
            requires
                ii + ni == t0,
        ;
        vstd::arithmetic::div_mod::lemma_add_mod_noop(ii * ki, ni * ki, m);
        // (i k) % m + n = j (mod m)
        let a = (ii * ki) % m;
        vstd::arithmetic::div_mod::lemma_mod_bound(ii * ki, m);
        assert((a + ni) % m == ji);
        if a < ni {
            vstd::arithmetic::div_mod::lemma_small_mod((a + ni) as nat, 2 * n);
        } else {
            vstd::arithmetic::div_mod::lemma_mod_sub_multiples_vanish(a + ni, m);
            vstd::arithmetic::div_mod::lemma_small_mod((a + ni - m) as nat, 2 * n);
        }
    }
}


/// Only the preimage of `X^j` or `X^(j+n)` contributes to coefficient `j`.
proof fn lemma_coeff_prefix<R: Ring>(x: Seq<R>, k: nat, kinv: nat, j: nat, m: nat)
    requires
        seq_wf(x),
        x.len() > 0,
        k % 2 == 1,
        kinv % 2 == 1,
        (k * kinv) % (2 * x.len()) == 1,
        j < x.len(),
        m <= x.len(),
    ensures
        ({
            let n = x.len();
            let t0 = (j * kinv) % (2 * n);
            let c = if t0 < n {
                t0
            } else {
                (t0 - n) as nat
            };
            automorphism_coeff(x, k, n, j, m) == (if c < m {
                if t0 < n {
                    R::add_spec(R::zero_spec(), x[c as int])
                } else {
                    R::sub_spec(R::zero_spec(), x[c as int])
                }
            } else {
                R::zero_spec()
            })
        }),
    decreases m,
{
    if m > 0 {
        let i = (m - 1) as nat;
        lemma_coeff_prefix(x, k, kinv, j, i);
        lemma_preimage(x.len(), k, kinv, j, i);
    }
}

/// Coefficient `j` of the image of `x` under `X -> X^k` is the signed coefficient of
/// `X^(j * kinv mod 2n)` in `x`, for `kinv` the inverse of `k` modulo `2n`.
proof fn lemma_automorphism_entry<R: Ring>(x: Seq<R>, k: nat, kinv: nat, j: nat)
    requires
        seq_wf(x),
        x.len() > 0,
        k % 2 == 1,
        kinv % 2 == 1,
        (k * kinv) % (2 * x.len()) == 1,
        j < x.len(),
    ensures
        automorphism_spec(x, k)[j as int] == signed_coeff(x, (j * kinv) % (2 * x.len())),
        signed_coeff(x, (j * kinv) % (2 * x.len())).wf(),
{
    let n = x.len();
    let t0 = (j * kinv) % (2 * n);
    vstd::arithmetic::div_mod::lemma_mod_bound((j * kinv) as int, (2 * n) as int);
    lemma_coeff_prefix(x, k, kinv, j, n);
    R::lemma_wf_params(x[0]);
    R::lemma_identities_wf();
    if t0 < n {
        lemma_add_zero_left(x[t0 as int]);
    } else {
        let c = (t0 - n) as int;
        R::lemma_closed(x[c], x[c]);
        R::lemma_add_laws(R::zero_spec(), x[c], x[c]);
        lemma_add_zero_left(R::neg_spec(x[c]));
    }
}

/// Where `X -> X^k` sends each coefficient, for `k` invertible modulo `2n`: with
/// `e = i k mod 2n`, input coefficient `i` becomes coefficient `e` of the image when
/// `e < n`, and coefficient `e - n` with its sign flipped otherwise (`X^(n + j) = -X^j`).
pub proof fn lemma_automorphism_moves<R: Ring>(x: Seq<R>, k: nat, kinv: nat, i: nat)
    requires
        seq_wf(x),
        x.len() > 0,
        k % 2 == 1,
        (k * kinv) % (2 * x.len()) == 1,
        i < x.len(),
    ensures
        (i * k) % (2 * x.len()) < x.len() ==> automorphism_spec(x, k)[((i * k) % (2 * x.len())) as int] == x[i as int],
        (i * k) % (2 * x.len()) >= x.len() ==> automorphism_spec(x, k)[((i * k) % (2 * x.len()) - x.len()) as int]
            == R::neg_spec(x[i as int]),
{
    let n = x.len();
    let m = (2 * n) as int;
    assert(kinv % 2 == 1) by {
        if kinv % 2 == 0 {
            let h = kinv / 2;
            assert(k * kinv == 2 * (k * h)) by (nonlinear_arith)
                requires
                    kinv == 2 * h,
            ;
            vstd::arithmetic::div_mod::lemma_fundamental_div_mod((k * kinv) as int, m);
            let q = (k * kinv) as int / m;
            let a = k * h;
            let b = n * q;
            assert(m * q == 2 * b) by (nonlinear_arith)
                requires
                    m == 2 * n,
                    b == n * q,
            ;
            assert(2 * a == 2 * b + 1);
        }
    }
    let e = (i * k) % (2 * n);
    vstd::arithmetic::div_mod::lemma_mod_bound((i * k) as int, m);
    // e * kinv = i (mod 2n)
    vstd::arithmetic::div_mod::lemma_mul_mod_noop_left((i * k) as int, kinv as int, m);
    lemma_mul_inverse_mod(i as int, k as int, kinv as int, m);
    vstd::arithmetic::div_mod::lemma_small_mod(i, 2 * n);
    assert((e * kinv) % (2 * n) == i);
    if e < n {
        lemma_automorphism_entry(x, k, kinv, e);
    } else {
        let u = (e - n) as nat;
        lemma_automorphism_entry(x, k, kinv, u);
        // u * kinv = e * kinv - n * kinv = i - n = i + n (mod 2n)
        lemma_odd_times_n(n as int, kinv as int);
        vstd::arithmetic::div_mod::lemma_small_mod(n, 2 * n);
        assert(e * kinv == u * kinv + n * kinv) by (nonlinear_arith)
            requires
                e == u + n,
        ;
        vstd::arithmetic::div_mod::lemma_add_mod_noop((u * kinv) as int, (n * kinv) as int, m);
        let a = (u * kinv) % (2 * n);
        vstd::arithmetic::div_mod::lemma_mod_bound((u * kinv) as int, m);
        assert((a + n) % (2 * n) == i);
        if a < n {
            vstd::arithmetic::div_mod::lemma_small_mod(a + n, 2 * n);
        } else {
            vstd::arithmetic::div_mod::lemma_mod_sub_multiples_vanish((a + n) as int, m);
            vstd::arithmetic::div_mod::lemma_small_mod((a + n - 2 * n) as nat, 2 * n);
        }
        assert(a == i + n);
    }
}

/// Applying `X -> X^k` and then `X -> X^kinv`, for `k * kinv = 1 (mod 2n)`, gives back
/// the original polynomial.
pub proof fn lemma_automorphism_inverse<R: Ring>(x: Seq<R>, k: nat, kinv: nat)
    requires
        seq_wf(x),
        x.len() > 0,
        k % 2 == 1,
        (k * kinv) % (2 * x.len()) == 1,
    ensures
        automorphism_spec(automorphism_spec(x, k), kinv) == x,
{
    let n = x.len();
    let m = (2 * n) as int;
    // kinv is odd because k * kinv is odd modulo the even number 2n.
    assert(kinv % 2 == 1) by {
        if kinv % 2 == 0 {
            let h = kinv / 2;
            assert(k * kinv == 2 * (k * h)) by (nonlinear_arith)
                requires
                    kinv == 2 * h,
            ;
            vstd::arithmetic::div_mod::lemma_fundamental_div_mod((k * kinv) as int, m);
            let q = (k * kinv) as int / m;
            let a = k * h;
            let b = n * q;
            assert(m * q == 2 * b) by (nonlinear_arith)
                requires
                    m == 2 * n,
                    b == n * q,
            ;
            assert(2 * a == 2 * b + 1);
        }
    }
    let y = automorphism_spec(x, k);
    assert((kinv * k) % (2 * n) == 1) by {
        assert(kinv * k == k * kinv) by (nonlinear_arith);
    }
    assert forall|j: int| 0 <= j < n implies (#[trigger] y[j]).wf() by {
        lemma_automorphism_entry(x, k, kinv, j as nat);
    }
    let z = automorphism_spec(y, kinv);
    assert forall|j: int| 0 <= j < n implies #[trigger] z[j] == x[j] by {
        let jn = j as nat;
        lemma_automorphism_entry(y, kinv, k, jn);
        let t = (jn * k) % (2 * n);
        vstd::arithmetic::div_mod::lemma_mod_bound((jn * k) as int, m);
        // t * kinv = j (mod 2n)
        vstd::arithmetic::div_mod::lemma_mul_mod_noop_left((jn * k) as int, kinv as int, m);
        lemma_mul_inverse_mod(jn as int, k as int, kinv as int, m);
        vstd::arithmetic::div_mod::lemma_small_mod(jn, 2 * n);
        if t < n {
            lemma_automorphism_entry(x, k, kinv, t);
            assert((t * kinv) % (2 * n) == jn);
        } else {
            let u = (t - n) as nat;
            lemma_automorphism_entry(x, k, kinv, u);
            // u * kinv = t * kinv - n * kinv = j - n = j + n (mod 2n)
            lemma_odd_times_n(n as int, kinv as int);
            vstd::arithmetic::div_mod::lemma_small_mod(n, 2 * n);
            assert(t * kinv == u * kinv + n * kinv) by (nonlinear_arith)
                requires
                    t == u + n,
            ;
            vstd::arithmetic::div_mod::lemma_add_mod_noop((u * kinv) as int, (n * kinv) as int, m);
            let a = (u * kinv) % (2 * n);
            vstd::arithmetic::div_mod::lemma_mod_bound((u * kinv) as int, m);
            assert((a + n) % (2 * n) == jn);
            if a < n {
                vstd::arithmetic::div_mod::lemma_small_mod(a + n, 2 * n);
            } else {
                vstd::arithmetic::div_mod::lemma_mod_sub_multiples_vanish((a + n) as int, m);
                vstd::arithmetic::div_mod::lemma_small_mod((a + n - 2 * n) as nat, 2 * n);
            }
            assert(a == jn + n);
            lemma_neg_neg(x[j]);
        }
    }
    assert(z =~= x);
}

} // verus!
