//! Montgomery arithmetic facts shared by [`PrimeField`](super::prime::PrimeField)
//! and [`Zm`](super::zm::Zm).
//!
//! With `R = 2^bits` and an odd modulus `q < R`, a residue `a` is stored as
//! `a * R mod q`; `R^{-1} mod q` is [`rinv`].
use crate::arith::modular::{lemma_pow2_64_value, pow2_64};
use vstd::arithmetic::div_mod::*;
use vstd::arithmetic::mul::*;
use vstd::arithmetic::power::*;
use vstd::arithmetic::power2::*;
use vstd::prelude::*;

verus! {

/// `R^{-1} mod q` for `R = 2^bits` and odd `q`: `((q + 1) / 2)^bits mod q`.
pub open spec fn rinv(q: nat, bits: nat) -> nat {
    (pow(((q + 1) / 2) as int, bits) % (q as int)) as nat
}

/// `2^bits * R^{-1} == 1 (mod q)` for odd `q >= 3`.
pub proof fn lemma_rinv(q: nat, bits: nat)
    requires
        q >= 3,
        q % 2 == 1,
    ensures
        rinv(q, bits) < q,
        (pow2(bits) * rinv(q, bits)) as int % (q as int) == 1,
{
    let h = ((q + 1) / 2) as int;
    let qi = q as int;
    lemma_pow_positive(h, bits);
    lemma_mod_bound(pow(h, bits), qi);
    lemma_pow2(bits);
    lemma_pow_distributes(2, h, bits);
    assert(2 * h == qi + 1);
    // (2h)^bits mod q == 1^bits mod q == 1
    lemma_pow_mod_noop(2 * h, bits, qi);
    assert((2 * h) % qi == 1) by {
        lemma_mod_add_multiples_vanish(1, qi);
        lemma_small_mod(1, q);
    }
    lemma1_pow(bits);
    lemma_small_mod(1, q);
    // 2^bits * (h^bits mod q) == 2^bits * h^bits (mod q)
    lemma_mul_mod_noop_right(pow(2, bits), pow(h, bits), qi);
}

/// Reduction facts: `t * R^{-1} mod q` is determined by `r * R == t (mod q)`.
pub proof fn lemma_mont_unique(r: int, t: int, q: nat, bits: nat)
    requires
        q >= 3,
        q % 2 == 1,
        0 <= r < q,
        (r * pow2(bits)) % (q as int) == t % (q as int),
    ensures
        r == (t * rinv(q, bits)) % (q as int),
{
    let qi = q as int;
    let b = pow2(bits) as int;
    let ri = rinv(q, bits) as int;
    lemma_rinv(q, bits);
    // r == r * (b * ri) == (r * b) * ri == t * ri  (mod q)
    lemma_mul_mod_noop_left(r * b, ri, qi);
    lemma_mul_mod_noop_left(t, ri, qi);
    lemma_mul_is_associative(r, b, ri);
    lemma_mul_mod_noop_right(r, b * ri, qi);
    lemma_small_mod(r as nat, q);
}

/// One Montgomery reduction step: for `t < q * R`, `m = (t mod R) * qinv mod R`
/// makes `t + m q` divisible by `R`, with quotient below `2q` and congruent to
/// `t R^{-1}`.
pub proof fn lemma_mont_step(t: int, q: int, qinv: int, base: int, m: int)
    requires
        base > 0,
        0 < q < base,
        0 <= qinv < base,
        (q * qinv + 1) % base == 0,
        0 <= t < q * base,
        m == ((t % base) * qinv) % base,
    ensures
        0 <= m < base,
        (t + m * q) % base == 0,
        0 <= (t + m * q) / base < 2 * q,
        ((t + m * q) / base) * base == t + m * q,
        (((t + m * q) / base) * base) % q == t % q,
{
    lemma_mod_bound(t, base);
    lemma_mod_bound((t % base) * qinv, base);
    let c = (q * qinv + 1) / base;
    lemma_fundamental_div_mod(q * qinv + 1, base);
    assert(q * qinv == c * base - 1);
    // m * q == (t % base) * qinv * q == (t % base) * (c * base - 1)  (mod base)
    let tl = t % base;
    assert((m * q) % base == (tl * (qinv * q)) % base) by {
        lemma_mul_mod_noop_left(tl * qinv, q, base);
        lemma_mul_is_associative(tl, qinv, q);
    }
    assert(tl * (qinv * q) == (tl * c) * base - tl) by {
        lemma_mul_is_commutative(qinv, q);
        lemma_mul_is_distributive_sub(tl, c * base, 1);
        lemma_mul_is_associative(tl, c, base);
    }
    assert((tl * (qinv * q)) % base == (- tl) % base) by {
        lemma_mod_multiples_vanish(tl * c, - tl, base);
    }
    assert((t + m * q) % base == 0) by {
        lemma_add_mod_noop(t, m * q, base);
        lemma_add_mod_noop(t, - tl, base);
        lemma_fundamental_div_mod(t, base);
        assert(t - tl == base * (t / base));
        lemma_mod_multiples_basic(t / base, base);
        lemma_mul_is_commutative(base, t / base);
    }
    // bounds
    lemma_mul_strict_inequality(m, base, q);
    lemma_mul_is_commutative(m, q);
    lemma_mul_is_commutative(base, q);
    assert(t + m * q < 2 * q * base) by (nonlinear_arith)
        requires
            t < q * base,
            m * q < base * q,
    ;
    lemma_fundamental_div_mod(t + m * q, base);
    lemma_mul_is_commutative(base, (t + m * q) / base);
    assert((t + m * q) / base < 2 * q) by {
        lemma_div_strictly_bounded_local(t + m * q, base, 2 * q);
    }
    lemma_div_pos_is_pos(t + m * q, base);
    assert((t + m * q) % q == t % q) by {
        lemma_mod_multiples_vanish(m, t, q);
    }
}

proof fn lemma_div_strictly_bounded_local(x: int, a: int, b: int)
    requires
        a > 0,
        b >= 0,
        0 <= x < b * a,
    ensures
        x / a < b,
{
    lemma_div_by_multiple(b, a);
    lemma_div_by_multiple_is_strongly_ordered(x, b * a, b, a);
}

/// `(x * y * ri) mod q`, the Montgomery product of representatives.
pub open spec fn mont_mul(x: int, y: int, ri: int, q: int) -> int {
    (x * y * ri) % q
}

/// `x * y * z == x * (y * z)` rearrangements used below.
proof fn lemma_mul3(x: int, y: int, z: int)
    ensures
        x * y * z == x * (y * z),
        x * y * z == (x * z) * y,
        x * y * z == y * (x * z),
{
    lemma_mul_is_associative(x, y, z);
    lemma_mul_is_associative(x, z, y);
    lemma_mul_is_commutative(y, z);
    lemma_mul_is_associative(y, x, z);
    lemma_mul_is_commutative(x, y);
}

/// The Montgomery product on representatives in `[0, q)` is commutative and
/// associative, has identity `base mod q`, and distributes over addition
/// modulo `q`.
pub proof fn lemma_mont_ring(x: int, y: int, z: int, q: int, ri: int, base: int)
    requires
        q > 1,
        0 <= x < q,
        0 <= y < q,
        0 <= z < q,
        (base * ri) % q == 1,
    ensures
        mont_mul(x, y, ri, q) == mont_mul(y, x, ri, q),
        mont_mul(mont_mul(x, y, ri, q), z, ri, q) == mont_mul(x, mont_mul(y, z, ri, q), ri, q),
        mont_mul(x, base % q, ri, q) == x,
        mont_mul(x, 0, ri, q) == 0,
        mont_mul(x, (y + z) % q, ri, q) == (mont_mul(x, y, ri, q) + mont_mul(x, z, ri, q)) % q,
        0 <= mont_mul(x, y, ri, q) < q,
{
    lemma_mod_bound(x * y * ri, q);
    lemma_mul_is_commutative(x, y);
    // associativity: both sides reduce to (x y z ri ri) mod q
    let xy = x * y * ri;
    let yz = y * z * ri;
    assert((xy % q) * z * ri % q == (xy * z * ri) % q) by {
        lemma_mul_is_associative(xy % q, z, ri);
        lemma_mul_is_associative(xy, z, ri);
        lemma_mul_mod_noop_left(xy, z * ri, q);
    }
    assert(x * (yz % q) * ri % q == (x * yz * ri) % q) by {
        lemma_mul_mod_noop_right(x, yz, q);
        lemma_mul_mod_noop_left(x * (yz % q), ri, q);
        lemma_mul_mod_noop_left(x * yz, ri, q);
    }
    assert(xy * z * ri == x * yz * ri) by (nonlinear_arith)
        requires
            xy == x * y * ri,
            yz == y * z * ri,
    ;
    // identity
    assert(x * (base % q) * ri % q == x) by {
        lemma_mul_is_associative(x, base % q, ri);
        lemma_mul_mod_noop_right(x, (base % q) * ri, q);
        lemma_mul_mod_noop_left(base, ri, q);
        lemma_mul_mod_noop_right(x, base * ri, q);
        lemma_small_mod(x as nat, q as nat);
    }
    // zero
    assert(x * 0 * ri == 0) by (nonlinear_arith);
    // distributivity
    assert(x * ((y + z) % q) * ri % q == (x * y * ri % q + x * z * ri % q) % q) by {
        lemma_mul_is_associative(x, (y + z) % q, ri);
        lemma_mul_is_commutative((y + z) % q, ri);
        lemma_mul_mod_noop_right(ri, y + z, q);
        lemma_mul_mod_noop_right(x, ri * ((y + z) % q), q);
        lemma_mul_mod_noop_right(x, ri * (y + z), q);
        assert(x * (ri * (y + z)) == x * y * ri + x * z * ri) by (nonlinear_arith);
        lemma_add_mod_noop(x * y * ri, x * z * ri, q);
        lemma_mul_is_associative(x, ri, (y + z) % q);
    }
}

/// Values `v = x * ri mod q` of representatives follow the operations:
/// sums, differences, negations and Montgomery products of representatives
/// have the sums, differences, negations and products of values, and a
/// representative is determined by its value.
pub proof fn lemma_mont_values(x: int, y: int, q: int, ri: int, base: int)
    requires
        q > 1,
        0 <= x < q,
        0 <= y < q,
        (base * ri) % q == 1,
    ensures
        (((x + y) % q) * ri) % q == ((x * ri) % q + (y * ri) % q) % q,
        (((x - y) % q) * ri) % q == ((x * ri) % q - (y * ri) % q) % q,
        (((q - x) % q) * ri) % q == (q - (x * ri) % q) % q,
        (mont_mul(x, y, ri, q) * ri) % q == (((x * ri) % q) * ((y * ri) % q)) % q,
        (x * ri) % q == (y * ri) % q ==> x == y,
        0 <= (x * ri) % q < q,
{
    lemma_mod_bound(x * ri, q);
    lemma_mul_mod_noop_left(x + y, ri, q);
    lemma_mul_is_distributive_add_other_way(ri, x, y);
    lemma_add_mod_noop(x * ri, y * ri, q);
    lemma_mul_mod_noop_left(x - y, ri, q);
    lemma_mul_is_distributive_sub_other_way(ri, x, y);
    lemma_sub_mod_noop(x * ri, y * ri, q);
    assert((((q - x) % q) * ri) % q == (q - (x * ri) % q) % q) by {
        lemma_mul_mod_noop_left(q - x, ri, q);
        lemma_mul_is_distributive_sub_other_way(ri, q, x);
        lemma_mul_is_commutative(q, ri);
        lemma_mod_multiples_vanish(ri, -(x * ri), q);
        assert((q - x) * ri == q * ri + -(x * ri));
        lemma_sub_mod_noop_right(q, x * ri, q);
        lemma_mod_add_multiples_vanish(-(x * ri), q);
        assert(q - x * ri == -(x * ri) + q);
    }
    assert((mont_mul(x, y, ri, q) * ri) % q == (((x * ri) % q) * ((y * ri) % q)) % q) by {
        lemma_mul_mod_noop_left(x * y * ri, ri, q);
        lemma_mul_mod_noop(x * ri, y * ri, q);
        assert(x * y * ri * ri == (x * ri) * (y * ri)) by (nonlinear_arith);
    }
    if (x * ri) % q == (y * ri) % q {
        // multiply both sides by base
        lemma_mul_mod_noop_left(x * ri, base, q);
        lemma_mul_mod_noop_left(y * ri, base, q);
        assert(x * ri * base == x * (base * ri)) by (nonlinear_arith);
        assert(y * ri * base == y * (base * ri)) by (nonlinear_arith);
        lemma_mul_mod_noop_right(x, base * ri, q);
        lemma_mul_mod_noop_right(y, base * ri, q);
        lemma_small_mod(x as nat, q as nat);
        lemma_small_mod(y as nat, q as nat);
    }
}

/// The two-limb sum `(t_hi R + t_lo) + (p_hi R + p_lo)` of a value divisible by
/// `R`: the low limbs add to `0` or `R`, and the quotient is `t_hi + p_hi + carry`.
pub proof fn lemma_split_sum(t_hi: int, t_lo: int, p_hi: int, p_lo: int, base: int)
    requires
        base > 0,
        0 <= t_lo < base,
        0 <= p_lo < base,
        0 <= t_hi,
        0 <= p_hi,
        ((t_hi * base + t_lo) + (p_hi * base + p_lo)) % base == 0,
    ensures
        t_lo + p_lo == 0 || t_lo + p_lo == base,
        ((t_hi * base + t_lo) + (p_hi * base + p_lo)) / base == t_hi + p_hi + (if t_lo + p_lo
            >= base {
            1int
        } else {
            0int
        }),
{
    let u = (t_hi * base + t_lo) + (p_hi * base + p_lo);
    assert(u == (t_hi + p_hi) * base + (t_lo + p_lo)) by (nonlinear_arith)
        requires
            u == (t_hi * base + t_lo) + (p_hi * base + p_lo),
    ;
    lemma_mod_multiples_vanish(t_hi + p_hi, t_lo + p_lo, base);
    lemma_mul_is_commutative(t_hi + p_hi, base);
    lemma_mod_add_once_local(t_lo + p_lo, base);
    if t_lo + p_lo >= base {
        assert(t_lo + p_lo == base);
        assert(u == (t_hi + p_hi + 1) * base) by (nonlinear_arith)
            requires
                u == (t_hi + p_hi) * base + (t_lo + p_lo),
                t_lo + p_lo == base,
        ;
        lemma_mul_is_commutative(t_hi + p_hi + 1, base);
        lemma_fundamental_div_mod_converse(u, base, t_hi + p_hi + 1, 0);
    } else {
        assert(t_lo + p_lo == 0);
        lemma_fundamental_div_mod_converse(u, base, t_hi + p_hi, 0);
    }
}

proof fn lemma_mod_add_once_local(s: int, r: int)
    requires
        r > 0,
        0 <= s < 2 * r,
    ensures
        s % r == if s >= r { s - r } else { s },
{
    if s >= r {
        lemma_fundamental_div_mod_converse(s, r, 1, s - r);
    } else {
        lemma_fundamental_div_mod_converse(s, r, 0, s);
    }
}

/// Converting into Montgomery form with `R^2 mod q` and reducing once gives the
/// representative `x * R mod q`.
pub proof fn lemma_to_mont_raw(x: int, r2: int, rn: int, q: int, base: int, ri: int)
    requires
        q > 1,
        r2 == (base * base) % q,
        rn == (x * r2 * ri) % q,
        (base * ri) % q == 1,
    ensures
        rn == (x * base) % q,
{
    lemma_mul_mod_noop_left(base * base, x * ri, q);
    assert(x * r2 * ri == r2 * (x * ri)) by (nonlinear_arith);
    assert((base * base) * (x * ri) == (x * base) * (base * ri)) by (nonlinear_arith);
    lemma_mul_mod_noop_right(x * base, base * ri, q);
    assert((x * base) * 1 == x * base);
}

/// Converting into Montgomery form with `R^2 mod q` and reducing once gives a
/// representative whose value is the input.
pub proof fn lemma_to_mont_value(x: int, r2: int, rn: int, q: int, base: int, ri: int)
    requires
        q > 1,
        0 <= x < q,
        r2 == (base * base) % q,
        rn == (x * r2 * ri) % q,
        (base * ri) % q == 1,
    ensures
        (rn * ri) % q == x,
{
    let k = x * ri * ri;
    assert(x * r2 * ri * ri == r2 * k) by (nonlinear_arith)
        requires
            k == x * ri * ri,
    ;
    lemma_mul_mod_noop_left(x * r2 * ri, ri, q);
    lemma_mul_mod_noop_left(base * base, k, q);
    assert((base * base) * k == x * (base * ri) * (base * ri)) by (nonlinear_arith)
        requires
            k == x * ri * ri,
    ;
    let br = base * ri;
    lemma_mul_mod_noop_right(x * br, br, q);
    lemma_mul_mod_noop_left(x * br, 1, q);
    lemma_mul_mod_noop_right(x, br, q);
    lemma_small_mod(x as nat, q as nat);
    assert(x * 1 == x);
    assert((x * br) % q == x);
    assert(((x * br) % q * 1) % q == x);
}

/// One Newton step `x' = x (2 - q x) mod 2^64` doubles the number of correct
/// low bits of an inverse of `q`.
pub open spec fn newton_step(q: u64, x: u64) -> u64 {
    ((x as nat * (((2 - ((q as nat * x as nat) % pow2_64()) as int) % (pow2_64() as int)) as nat))
        % pow2_64()) as u64
}

proof fn lemma_newton_step(q: u64, x: u64, j: nat)
    requires
        1 <= j <= 32,
        (q as int * x as int) % (pow2(j) as int) == 1,
    ensures
        (q as int * newton_step(q, x) as int) % (pow2(2 * j) as int) == 1,
{
    let p = pow2_64() as int;
    let mj = pow2(j) as int;
    let mm = pow2(2 * j) as int;
    lemma_pow2_64_value();
    lemma_pow2_pos(j);
    lemma_pow2_pos(2 * j);
    lemma_pow2_pos((64 - 2 * j) as nat);
    lemma_pow2_adds(j, j);
    lemma_pow2_adds(2 * j, (64 - 2 * j) as nat);
    assert(p == mm * (pow2((64 - 2 * j) as nat) as int));
    let qx = q as int * x as int;
    let w = (2 - qx % p) % p;
    let z = x as int * w;
    lemma_mod_bound(2 - qx % p, p);
    lemma_mod_bound(qx, p);
    lemma_mul_nonnegative(x as int, w);
    lemma_mod_bound(z, p);
    assert(newton_step(q, x) as int == z % p);
    // reduce everything modulo mm, which divides p
    assert((q as int * (z % p)) % mm == (q as int * z) % mm) by {
        lemma_mul_mod_noop_right(q as int, z, p);
        lemma_mod_mod(q as int * z, mm, pow2((64 - 2 * j) as nat) as int);
        lemma_mod_mod(q as int * (z % p), mm, pow2((64 - 2 * j) as nat) as int);
        lemma_mul_mod_noop_right(q as int, z, p);
    }
    assert((q as int * z) % mm == (qx * (2 - qx)) % mm) by {
        lemma_mul_is_associative(q as int, x as int, w);
        lemma_mul_mod_noop_right(qx, w, mm);
        lemma_mul_mod_noop_right(qx, 2 - qx, mm);
        // w == 2 - qx (mod mm): both reductions of 2 - qx modulo multiples of mm
        lemma_sub_mod_noop_right(2, qx, p);
        lemma_mod_mod(2 - qx, mm, pow2((64 - 2 * j) as nat) as int);
        lemma_mod_mod(2 - qx % p, mm, pow2((64 - 2 * j) as nat) as int);
        assert(w % mm == (2 - qx) % mm);
    }
    // qx = 1 + c * 2^j, so qx (2 - qx) = 1 - c^2 2^(2j)
    let c = qx / mj;
    lemma_fundamental_div_mod(qx, mj);
    assert(qx == mj * c + 1);
    assert(qx * (2 - qx) == 1 - (c * c) * (mj * mj)) by (nonlinear_arith)
        requires
            qx == mj * c + 1,
    ;
    assert(mj * mj == mm);
    assert((1 - (c * c) * mm) % mm == 1) by {
        lemma_mod_multiples_vanish(- (c * c), 1, mm);
        lemma_mul_is_commutative(- (c * c), mm);
        assert(- (c * c) * mm == - ((c * c) * mm)) by (nonlinear_arith);
        lemma_pow2_strictly_increases(0, 2 * j);
        lemma2_to64();
        lemma_small_mod(1, mm as nat);
    }
}

/// `-q^{-1} mod 2^64` for odd `q`, by six Newton steps.
pub fn neg_inv_u64(q: u64) -> (r: u64)
    ensures
        q % 2 == 1 ==> (q as int * r as int + 1) % (pow2_64() as int) == 0,
{
    let mut inv: u64 = 1;
    let mut i: u64 = 0;
    proof {
        lemma2_to64();
        if q % 2 == 1 {
            assert((q as int * 1) % 2 == 1);
        }
    }
    while i < 6
        invariant
            0 <= i <= 6,
            q % 2 == 1 ==> (q as int * inv as int) % (pow2(pow2(i as nat)) as int) == 1,
        decreases 6 - i,
    {
        let ghost old_inv = inv;
        let qx = q.wrapping_mul(inv);
        let w = 2u64.wrapping_sub(qx);
        inv = inv.wrapping_mul(w);
        proof {
            lemma_pow2_64_value();
            assert(qx as int == (q as int * old_inv as int) % (pow2_64() as int));
            assert(w as int == (2 - qx as int) % (pow2_64() as int));
            assert(inv == newton_step(q, old_inv));
            lemma2_to64();
            if q % 2 == 1 {
                lemma_newton_step(q, old_inv, pow2(i as nat));
                lemma_pow2_unfold((i + 1) as nat);
                assert(pow2((i + 1) as nat) == 2 * pow2(i as nat));
            }
        }
        i = i + 1;
    }
    proof {
        lemma2_to64();
        lemma_pow2_64_value();
    }
    let r = 0u64.wrapping_sub(inv);
    proof {
        let p = pow2_64() as int;
        if q % 2 == 1 {
            // q * (p - inv) + 1 == q * p - (q * inv - 1)
            lemma_mod_bound(q as int * inv as int, p);
            if inv == 0 {
                lemma_mul_basics(q as int);
            } else {
                assert(r as int == p - inv as int);
                assert(q as int * r as int + 1 == q as int * p - (q as int * inv as int - 1)) by (nonlinear_arith)
                    requires r as int == p - inv as int;
                lemma_fundamental_div_mod(q as int * inv as int, p);
                let k = (q as int * inv as int) / p;
                assert(q as int * inv as int - 1 == p * k);
                assert(q as int * r as int + 1 == p * (q as int - k)) by (nonlinear_arith)
                    requires
                        q as int * r as int + 1 == q as int * p - (q as int * inv as int - 1),
                        q as int * inv as int - 1 == p * k;
                lemma_mod_multiples_basic(q as int - k, p);
                lemma_mul_is_commutative(p, q as int - k);
            }
        }
    }
    r
}

} // verus!
