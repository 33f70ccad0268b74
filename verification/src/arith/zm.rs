//! `Zm<M, L>` — integers modulo `M` where `M >= 2`.
//!
//! Uses Montgomery form when `M` is odd for efficient multiplication, and
//! plain residues when `M` is even. Unlike [`PrimeField`](super::prime::PrimeField),
//! `Zm` does not require `M` to be prime.
use crate::arith::limb::UintLimb;
use crate::arith::large_modulus::LargeCanonicalRing;
use crate::arith::modular::{
    lemma_limb_pow2_values, lemma_mod_add_once, lemma_mod_ring_laws, lemma_mod_sub_once,
    lemma_pow2_64_value, pow2_64,
};
use crate::arith::montgomery::{
    lemma_mont_ring, lemma_mont_step, lemma_mont_unique, lemma_mont_values, lemma_rinv,
    lemma_split_sum, lemma_to_mont_value, mont_mul, neg_inv_u64, rinv,
};
use crate::arith::ring::{
    IntegerRing, Ring, dot_spec, pow_spec, ring_add_assign_scaled_slice, ring_add_assign_slice,
    ring_dot_product, ring_pointwise_mul_assign_slice, ring_pow, ring_scalar_mul_slice,
    ring_sub_assign_slice, seq_wf,
};
use vstd::arithmetic::div_mod::*;
use vstd::arithmetic::mul::*;
use vstd::arithmetic::power2::*;
use vstd::bits::{lemma_u64_low_bits_mask_is_mod, lemma_u64_pow2_no_overflow, lemma_u64_shl_is_mul};
use vstd::prelude::*;

verus! {

/// A modular integer in `Z_M` for any `M >= 2`.
///
/// When `M` is odd the value `a` is stored in Montgomery form `a * R mod M`
/// (`R = 2^{bits}` of the limb type `L`); when `M` is even it is stored as the
/// plain residue in `[0, M)`.
#[derive(Clone, Copy, Debug)]
pub struct Zm<const M: u64, L: UintLimb = u64> {
    val: L,
}

impl<const M: u64, L: UintLimb> Zm<M, L> {
    /// The modulus is at least `2` and fits in the limb type.
    pub open spec fn m_ok() -> bool {
        2 <= M && M < L::base()
    }

    /// The modulus is odd (Montgomery form) and admissible.
    pub open spec fn q_ok() -> bool {
        3 <= M && M % 2 == 1 && M < L::base()
    }

    /// `R^{-1} mod M`.
    pub open spec fn rinv_spec() -> nat {
        rinv(M as nat, L::bits_nat())
    }

    /// The stored Montgomery representative.
    pub closed spec fn raw_nat(self) -> nat {
        self.val.nat_of()
    }

    /// The element with Montgomery representative `n < M`.
    pub closed spec fn from_rep(n: nat) -> Self {
        Zm { val: L::from_nat(n) }
    }

    proof fn lemma_from_rep(n: nat)
        requires
            Self::m_ok(),
            n < M,
        ensures
            Self::from_rep(n).raw_nat() == n,
    {
        L::lemma_from_nat(n);
    }

    proof fn lemma_eq_by_raw(a: Self, b: Self)
        requires
            a.raw_nat() == b.raw_nat(),
        ensures
            a == b,
    {
        L::lemma_limb(a.val, b.val);
    }

    /// Facts about the Montgomery constants.
    proof fn lemma_params()
        requires
            Self::q_ok(),
        ensures
            Self::rinv_spec() < M,
            (L::base() * Self::rinv_spec()) as int % (M as int) == 1,
            L::base() == pow2(L::bits_nat()),
            L::base() >= 256,
            M > 1,
    {
        L::lemma_limb(L::from_nat(0), L::from_nat(0));
        lemma_rinv(M as nat, L::bits_nat());
        lemma_limb_pow2_values();
    }

    fn modulus_limb() -> (r: L)
        ensures
            Self::m_ok() ==> r.nat_of() == M,
    {
        let r = L::from_u64(M);
        proof {
            if Self::m_ok() {
                lemma_small_mod(M as nat, L::base());
            }
        }
        r
    }

    /// `R mod M` as a `u64`.
    fn r_mod_m_u64() -> (r: u64)
        requires
            Self::q_ok(),
        ensures
            r == L::base() % (M as nat),
    {
        proof {
            Self::lemma_params();
            L::lemma_limb(L::from_nat(0), L::from_nat(0));
        }
        let bits = L::bits();
        if bits < 64 {
            proof {
                lemma_u64_pow2_no_overflow(bits as nat);
                lemma_u64_shl_is_mul(1, bits as u64);
            }
            (1u64 << bits) % M
        } else {
            proof {
                lemma_pow2_64_value();
                lemma_add_mod_noop(u64::MAX as int, 1, M as int);
                lemma_mod_bound(u64::MAX as int, M as int);
                lemma_small_mod(1, M as nat);
                lemma_mod_twice(u64::MAX as int + 1, M as int);
            }
            (u64::MAX % M + 1) % M
        }
    }

    /// `R^2 mod M` as a `u64`.
    fn r2_mod_m_u64() -> (r: u64)
        requires
            Self::q_ok(),
        ensures
            r == (L::base() * L::base()) % (M as nat),
            r < M,
    {
        let r = Self::r_mod_m_u64();
        proof {
            lemma_mod_bound(L::base() as int, M as int);
            lemma_mul_upper_bound(r as int, M as int, r as int, M as int);
            lemma_mul_mod_noop(L::base() as int, L::base() as int, M as int);
            lemma_mod_bound((r * r) as int, M as int);
            assert((r as int) * (r as int) <= 0xffff_ffff_ffff_ffff * 0xffff_ffff_ffff_ffff) by (nonlinear_arith)
                requires 0 <= r <= 0xffff_ffff_ffff_ffff;
        }
        let r2 = (r as u128 * r as u128) % (M as u128);
        r2 as u64
    }

    /// `-M^{-1} mod R`.
    fn mod_inv_limb() -> (r: L)
        ensures
            M % 2 == 1 ==> (M * r.nat_of() + 1) % (L::base() as int) == 0,
    {
        let inv64 = neg_inv_u64(M);
        let bits = L::bits();
        let inv = if bits < 64 {
            proof {
                L::lemma_limb(L::from_nat(0), L::from_nat(0));
                lemma_u64_pow2_no_overflow(bits as nat);
                lemma_u64_shl_is_mul(1, bits as u64);
                lemma_u64_low_bits_mask_is_mod(inv64, bits as nat);
            }
            inv64 & ((1u64 << bits).wrapping_sub(1))
        } else {
            inv64
        };
        let r = L::from_u64(inv);
        proof {
            L::lemma_limb(r, r);
            lemma_limb_pow2_values();
            if M % 2 == 1 {
                let base = L::base() as int;
                let p = pow2_64() as int;
                lemma_pow2_64_value();
                lemma_pow2_pos(L::bits_nat());
                // r == inv64 mod base, and base divides 2^64
                assert(r.nat_of() as int == inv64 as int % base) by {
                    if bits < 64 {
                        lemma_mod_twice(inv64 as int, base);
                    }
                }
                lemma_mul_mod_noop_right(M as int, inv64 as int, base);
                lemma_add_mod_noop(M as int * (inv64 as int % base), 1, base);
                lemma_add_mod_noop(M as int * inv64 as int, 1, base);
                lemma_pow2_adds(L::bits_nat(), (64 - L::bits_nat()) as nat);
                lemma_pow2_pos((64 - L::bits_nat()) as nat);
                lemma_mod_mod(M as int * inv64 as int + 1, base, pow2((64 - L::bits_nat()) as nat) as int);
            }
        }
        r
    }

    /// `(lhs + rhs) mod M` on representatives below `M`.
    fn add_raw(lhs: L, rhs: L) -> (r: L)
        ensures
            Self::m_ok() && lhs.nat_of() < M && rhs.nat_of() < M ==> r.nat_of() == (lhs.nat_of()
                + rhs.nat_of()) % (M as nat),
    {
        let q = Self::modulus_limb();
        let bits = L::bits();
        proof {
            L::lemma_limb(lhs, rhs);
        }
        if M < (1u64 << (bits - 1)) {
            let sum = lhs.wrapping_add(rhs);
            proof {
                if Self::m_ok() && lhs.nat_of() < M && rhs.nat_of() < M {
                    lemma_u64_pow2_no_overflow((bits - 1) as nat);
                    lemma_u64_shl_is_mul(1, (bits - 1) as u64);
                    lemma_pow2_unfold(L::bits_nat());
                    lemma_small_mod((lhs.nat_of() + rhs.nat_of()) as nat, L::base());
                    lemma_mod_add_once((lhs.nat_of() + rhs.nat_of()) as int, M as int);
                }
            }
            if !sum.lt(q) {
                let d = sum.wrapping_sub(q);
                proof {
                    if Self::m_ok() && lhs.nat_of() < M && rhs.nat_of() < M {
                        lemma_small_mod((sum.nat_of() - M) as nat, L::base());
                    }
                }
                return d;
            }
            return sum;
        }
        let (sum, carry) = lhs.overflowing_add(rhs);
        proof {
            if Self::m_ok() && lhs.nat_of() < M && rhs.nat_of() < M {
                lemma_mod_add_once((lhs.nat_of() + rhs.nat_of()) as int, M as int);
                lemma_mod_add_once((lhs.nat_of() + rhs.nat_of()) as int, L::base() as int);
            }
        }
        if carry || !sum.lt(q) {
            let d = sum.wrapping_sub(q);
            proof {
                if Self::m_ok() && lhs.nat_of() < M && rhs.nat_of() < M {
                    lemma_mod_sub_once(sum.nat_of() - M, L::base() as int);
                }
            }
            d
        } else {
            sum
        }
    }

    /// `(lhs - rhs) mod M` on representatives below `M`.
    fn sub_raw(lhs: L, rhs: L) -> (r: L)
        ensures
            Self::m_ok() && lhs.nat_of() < M && rhs.nat_of() < M ==> r.nat_of() as int == (
            lhs.nat_of() - rhs.nat_of()) % (M as int),
    {
        let q = Self::modulus_limb();
        proof {
            L::lemma_limb(lhs, rhs);
        }
        if !lhs.lt(rhs) {
            let d = lhs.wrapping_sub(rhs);
            proof {
                if Self::m_ok() && lhs.nat_of() < M && rhs.nat_of() < M {
                    lemma_small_mod((lhs.nat_of() - rhs.nat_of()) as nat, L::base());
                    lemma_small_mod((lhs.nat_of() - rhs.nat_of()) as nat, M as nat);
                }
            }
            d
        } else {
            let t = q.wrapping_sub(rhs);
            let d = t.wrapping_add(lhs);
            proof {
                if Self::m_ok() && lhs.nat_of() < M && rhs.nat_of() < M {
                    lemma_small_mod((M - rhs.nat_of()) as nat, L::base());
                    lemma_small_mod((M - rhs.nat_of() + lhs.nat_of()) as nat, L::base());
                    lemma_mod_sub_once(lhs.nat_of() - rhs.nat_of(), M as int);
                }
            }
            d
        }
    }

    /// Montgomery reduction: for `t < M R`, the representative `r < M` with
    /// `r R == t (mod M)`.
    fn montgomery_reduce(t: L::Wide) -> (r: L)
        ensures
            Self::q_ok() && L::wide_nat(t) < M * L::base() ==> r.nat_of() < M && (r.nat_of()
                * L::base()) as int % (M as int) == L::wide_nat(t) as int % (M as int),
    {
        let q_limb = Self::modulus_limb();
        let bits = L::bits();
        proof {
            L::lemma_limb(q_limb, q_limb);
            L::lemma_wide(t);
        }
        if M >= (1u64 << (bits - 1)) {
            return Self::montgomery_reduce_wide(t);
        }
        let q_inv = Self::mod_inv_limb();
        let t_lo = L::from_wide_truncate(t);
        let m = t_lo.wrapping_mul(q_inv);
        let mq = L::wide_mul(L::to_wide(m), L::to_wide(q_limb));
        let t_plus_mq = L::wide_add(t, mq);
        let shifted = L::wide_shr(t_plus_mq, bits);
        let result = L::from_wide_truncate(shifted);
        let ghost cond = Self::q_ok() && L::wide_nat(t) < M * L::base();
        proof {
            L::lemma_limb(m, q_inv);
            L::lemma_wide(mq);
            if cond {
                let base = L::base() as int;
                let tn = L::wide_nat(t) as int;
                let mn = m.nat_of() as int;
                let qi = M as int;
                lemma_u64_pow2_no_overflow((bits - 1) as nat);
                lemma_u64_shl_is_mul(1, (bits - 1) as u64);
                lemma_pow2_unfold(L::bits_nat());
                assert(2 * qi < base);
                assert(t_lo.nat_of() as int == tn % base);
                lemma_mont_step(tn, qi, q_inv.nat_of() as int, base, mn);
                lemma_mul_strict_inequality(mn, base, qi);
                lemma_mul_strict_inequality(qi, base, base);
                lemma_mul_is_commutative(qi, base);
                lemma_mul_is_commutative(mn, qi);
                assert(mn * qi < base * base);
                lemma_small_mod((mn * qi) as nat, L::wide_base());
                assert(L::wide_nat(mq) as int == mn * qi);
                assert(tn + mn * qi < base * base) by (nonlinear_arith)
                    requires
                        tn < qi * base,
                        mn * qi < base * qi,
                        2 * qi < base,
                        qi > 0,
                ;
                lemma_small_mod((tn + mn * qi) as nat, L::wide_base());
                assert(L::wide_nat(t_plus_mq) as int == tn + mn * qi);
                assert(L::wide_nat(shifted) as int == (tn + mn * qi) / base);
                lemma_small_mod(L::wide_nat(shifted), L::base());
                assert(result.nat_of() as int == (tn + mn * qi) / base);
            }
        }
        if !result.lt(q_limb) {
            let d = result.wrapping_sub(q_limb);
            proof {
                if cond {
                    let base = L::base() as int;
                    let rn = result.nat_of() as int;
                    lemma_small_mod((rn - M) as nat, L::base());
                    assert((rn - M) * base == rn * base + (- base) * M) by (nonlinear_arith);
                    lemma_mod_multiples_vanish(- base, rn * base, M as int);
                    lemma_mul_is_commutative(- base, M as int);
                }
            }
            d
        } else {
            result
        }
    }

    /// Montgomery reduction for moduli in `[R/2, R)`, carrying through two limbs.
    fn montgomery_reduce_wide(t: L::Wide) -> (r: L)
        ensures
            Self::q_ok() && L::wide_nat(t) < M * L::base() ==> r.nat_of() < M && (r.nat_of()
                * L::base()) as int % (M as int) == L::wide_nat(t) as int % (M as int),
    {
        let q_limb = Self::modulus_limb();
        let q_inv = Self::mod_inv_limb();
        let t_lo = L::from_wide_truncate(t);
        let m = t_lo.wrapping_mul(q_inv);
        let product = L::wide_mul(L::to_wide(m), L::to_wide(q_limb));
        let bits = L::bits();
        proof {
            L::lemma_limb(q_limb, q_inv);
            L::lemma_wide(t);
        }
        let t_hi = L::from_wide_truncate(L::wide_shr(t, bits));
        let prod_lo = L::from_wide_truncate(product);
        let prod_hi = L::from_wide_truncate(L::wide_shr(product, bits));
        let (_sum_lo, carry_lo) = t_lo.overflowing_add(prod_lo);
        let (sum_hi1, carry_hi_a) = t_hi.overflowing_add(prod_hi);
        let carry_word = L::from_u64(if carry_lo { 1u64 } else { 0u64 });
        let (sum_hi, carry_hi_b) = sum_hi1.overflowing_add(carry_word);
        let overflow = carry_hi_a || carry_hi_b;
        let ghost cond = Self::q_ok() && L::wide_nat(t) < M * L::base();
        let ghost h: int = 0;
        proof {
            L::lemma_limb(m, prod_lo);
            L::lemma_wide(product);
            L::lemma_limb(t_hi, prod_hi);
            L::lemma_limb(carry_word, sum_hi);
            L::lemma_limb(sum_hi1, t_lo);
            lemma_limb_pow2_values();
            if cond {
                let base = L::base() as int;
                let tn = L::wide_nat(t) as int;
                let pn = L::wide_nat(product) as int;
                let mn = m.nat_of() as int;
                let qi = M as int;
                assert(t_lo.nat_of() as int == tn % base);
                lemma_mont_step(tn, qi, q_inv.nat_of() as int, base, mn);
                lemma_mul_strict_inequality(mn, base, qi);
                lemma_mul_strict_inequality(qi, base, base);
                lemma_mul_is_commutative(qi, base);
                lemma_mul_is_commutative(mn, qi);
                lemma_small_mod((mn * qi) as nat, L::wide_base());
                assert(pn == mn * qi);
                lemma_pow2_pos(L::bits_nat());
                lemma_fundamental_div_mod(tn, base);
                lemma_fundamental_div_mod(pn, base);
                lemma_mod_bound(tn, base);
                lemma_mod_bound(pn, base);
                lemma_div_pos_is_pos(tn, base);
                lemma_div_pos_is_pos(pn, base);
                lemma_mul_is_commutative(base, tn / base);
                lemma_mul_is_commutative(base, pn / base);
                lemma_div_strictly_bounded_zm(tn, base, base);
                lemma_div_strictly_bounded_zm(pn, base, base);
                lemma_small_mod((tn / base) as nat, L::base());
                lemma_small_mod((pn / base) as nat, L::base());
                assert(t_hi.nat_of() as int == tn / base);
                assert(prod_hi.nat_of() as int == pn / base);
                assert(prod_lo.nat_of() as int == pn % base);
                lemma_split_sum(tn / base, tn % base, pn / base, pn % base, base);
                assert(tn == (tn / base) * base + tn % base);
                assert(pn == (pn / base) * base + pn % base);
                h = (tn + pn) / base;
                assert(carry_lo == (tn % base + pn % base >= base));
                assert(carry_word.nat_of() == if carry_lo { 1nat } else { 0nat }) by {
                    lemma_small_mod(if carry_lo { 1nat } else { 0nat }, L::base());
                }
                assert(h == t_hi.nat_of() + prod_hi.nat_of() + carry_word.nat_of());
                assert(h < 2 * qi);
                assert((h * base) % qi == tn % qi);
                lemma_mod_add_once(t_hi.nat_of() as int + prod_hi.nat_of() as int, base);
                lemma_mod_add_once(sum_hi1.nat_of() as int + carry_word.nat_of() as int, base);
                assert(overflow == (h >= base));
                assert(sum_hi.nat_of() as int == h % base) by {
                    lemma_mod_add_once(h, base);
                }
            }
        }
        if overflow {
            let nq = q_limb.wrapping_neg();
            let d = sum_hi.wrapping_add(nq);
            proof {
                if cond {
                    let base = L::base() as int;
                    lemma_mod_sub_once(0 - M, base);
                    assert(nq.nat_of() as int == base - M);
                    assert(sum_hi.nat_of() as int == h - base);
                    lemma_mod_add_once(sum_hi.nat_of() as int + (base - M), base);
                    assert(d.nat_of() as int == h - M);
                    assert((h - M) * base == h * base + (- base) * M) by (nonlinear_arith);
                    lemma_mod_multiples_vanish(- base, h * base, M as int);
                    lemma_mul_is_commutative(- base, M as int);
                }
            }
            d
        } else if !sum_hi.lt(q_limb) {
            let d = sum_hi.wrapping_sub(q_limb);
            proof {
                if cond {
                    let base = L::base() as int;
                    assert(sum_hi.nat_of() as int == h);
                    lemma_small_mod((h - M) as nat, L::base());
                    assert((h - M) * base == h * base + (- base) * M) by (nonlinear_arith);
                    lemma_mod_multiples_vanish(- base, h * base, M as int);
                    lemma_mul_is_commutative(- base, M as int);
                }
            }
            d
        } else {
            sum_hi
        }
    }
}

proof fn lemma_div_strictly_bounded_zm(x: int, a: int, b: int)
    requires
        a > 0,
        b >= 0,
        0 <= x < b * a,
    ensures
        x / a < b,
{
    lemma_div_by_multiple(b, a);
    lemma_div_by_multiple_is_strongly_ordered(x, b * a, b, a);
}

impl<const M: u64, L: UintLimb> Zm<M, L> {
    /// The representative of the product of two representatives.
    pub open spec fn mul_rep(x: nat, y: nat) -> nat {
        if M % 2 == 1 {
            mont_mul(x as int, y as int, Self::rinv_spec() as int, M as int) as nat
        } else {
            (x * y) % (M as nat)
        }
    }

    /// The representative of `1`.
    pub open spec fn one_rep() -> nat {
        if M % 2 == 1 {
            L::base() % (M as nat)
        } else {
            1
        }
    }

    /// The canonical value of a representative.
    pub open spec fn value_of(x: nat) -> nat {
        if M % 2 == 1 {
            (x * Self::rinv_spec()) % (M as nat)
        } else {
            x
        }
    }

    /// Convert a canonical value to the internal representation.
    fn encode_canonical(val: u64) -> (r: Self)
        requires
            Self::m_ok(),
        ensures
            r.wf(),
            r.val.nat_of() < M,
            Self::value_of(r.val.nat_of()) == (val as nat) % (M as nat),
    {
        let r = val % M;
        proof {
            lemma_small_mod(r as nat, L::base());
        }
        if M % 2 == 1 {
            proof {
                Self::lemma_params();
            }
            let r_limb = L::from_u64(r);
            let r2 = Self::r2_mod_m_u64();
            let t = L::wide_mul(L::to_wide(r_limb), L::wide_from_u64(r2));
            let red = Self::montgomery_reduce(t);
            proof {
                L::lemma_limb(r_limb, red);
                lemma_limb_pow2_values();
                let x = r as int;
                let base = L::base() as int;
                let qi = M as int;
                let ri = Self::rinv_spec() as int;
                lemma_small_mod(r2 as nat, L::wide_base());
                assert(x * r2 < qi * base) by (nonlinear_arith)
                    requires
                        0 <= x < qi,
                        0 <= r2 < qi,
                        qi < base,
                ;
                assert(qi * base <= base * base) by (nonlinear_arith)
                    requires
                        qi < base,
                        base > 0,
                ;
                lemma_small_mod((x * r2) as nat, L::wide_base());
                lemma_mont_unique(red.nat_of() as int, x * r2, M as nat, L::bits_nat());
                lemma_mul_is_associative(x, r2 as int, ri);
                lemma_to_mont_value(x, r2 as int, red.nat_of() as int, qi, base, ri);
            }
            Zm { val: red }
        } else {
            let v = L::from_u64(r);
            Zm { val: v }
        }
    }

    /// Convert the internal representation back to the canonical value.
    fn decode_canonical(self) -> (r: u64)
        ensures
            self.wf() ==> r as nat == Self::value_of(self.val.nat_of()),
    {
        if M % 2 == 1 {
            let v = Self::montgomery_reduce(L::to_wide(self.val));
            proof {
                if self.wf() {
                    Self::lemma_params();
                    L::lemma_limb(self.val, v);
                    assert(self.val.nat_of() < M * L::base()) by (nonlinear_arith)
                        requires
                            self.val.nat_of() < M,
                            L::base() >= 1,
                    ;
                    lemma_mont_unique(v.nat_of() as int, self.val.nat_of() as int, M as nat, L::bits_nat());
                }
            }
            v.to_u64()
        } else {
            self.val.to_u64()
        }
    }

    fn add_total(a: &Self, b: &Self) -> (r: Self)
        ensures
            a.wf() && b.wf() ==> r == <Self as Ring>::add_spec(*a, *b),
    {
        let r = Zm { val: Self::add_raw(a.val, b.val) };
        proof {
            if a.wf() && b.wf() {
                lemma_mod_bound((a.val.nat_of() + b.val.nat_of()) as int, M as int);
                Self::lemma_from_rep((a.val.nat_of() + b.val.nat_of()) as nat % (M as nat));
                Self::lemma_eq_by_raw(r, <Self as Ring>::add_spec(*a, *b));
            }
        }
        r
    }

    fn sub_total(a: &Self, b: &Self) -> (r: Self)
        ensures
            a.wf() && b.wf() ==> r == <Self as Ring>::sub_spec(*a, *b),
    {
        let r = Zm { val: Self::sub_raw(a.val, b.val) };
        proof {
            if a.wf() && b.wf() {
                lemma_mod_bound(a.val.nat_of() - b.val.nat_of(), M as int);
                Self::lemma_from_rep(((a.val.nat_of() - b.val.nat_of()) % (M as int)) as nat);
                Self::lemma_eq_by_raw(r, <Self as Ring>::sub_spec(*a, *b));
            }
        }
        r
    }

    fn mul_total(a: &Self, b: &Self) -> (r: Self)
        ensures
            a.wf() && b.wf() ==> r == <Self as Ring>::mul_spec(*a, *b),
    {
        if M % 2 == 1 {
            let product = L::wide_mul(L::to_wide(a.val), L::to_wide(b.val));
            let red = Self::montgomery_reduce(product);
            let r = Zm { val: red };
            proof {
                if a.wf() && b.wf() {
                    Self::lemma_params();
                    L::lemma_limb(a.val, b.val);
                    let x = a.val.nat_of() as int;
                    let y = b.val.nat_of() as int;
                    let base = L::base() as int;
                    assert(x * y < M * base) by (nonlinear_arith)
                        requires
                            0 <= x < M,
                            0 <= y < M,
                            M < base,
                    ;
                    assert(M * base <= base * base) by (nonlinear_arith)
                        requires
                            M < base,
                            base > 0,
                    ;
                    lemma_small_mod((x * y) as nat, L::wide_base());
                    lemma_mont_unique(red.nat_of() as int, x * y, M as nat, L::bits_nat());
                    lemma_mul_is_associative(x, y, Self::rinv_spec() as int);
                    lemma_mont_ring(x, y, y, M as int, Self::rinv_spec() as int, base);
                    Self::lemma_from_rep(Self::mul_rep(x as nat, y as nat));
                    Self::lemma_eq_by_raw(r, <Self as Ring>::mul_spec(*a, *b));
                }
            }
            r
        } else {
            // `Zm<0>` has no elements; its product is never formed from valid operands.
            if M == 0 {
                return *a;
            }
            let x = a.decode_canonical();
            let y = b.decode_canonical();
            proof {
                assert((x as int) * (y as int) <= 0xffff_ffff_ffff_ffff * 0xffff_ffff_ffff_ffff) by (nonlinear_arith)
                    requires
                        0 <= x <= 0xffff_ffff_ffff_ffff,
                        0 <= y <= 0xffff_ffff_ffff_ffff,
                ;
            }
            let product = (x as u128 * y as u128) % (M as u128);
            proof {
                lemma_mod_bound((x * y) as int, M as int);
            }
            let v = L::from_u64(product as u64);
            let r = Zm { val: v };
            proof {
                if a.wf() && b.wf() {
                    lemma_small_mod(product as nat, L::base());
                    Self::lemma_from_rep(Self::mul_rep(x as nat, y as nat));
                    Self::lemma_eq_by_raw(r, <Self as Ring>::mul_spec(*a, *b));
                }
            }
            r
        }
    }

    fn neg_total(a: &Self) -> (r: Self)
        ensures
            a.wf() ==> r == <Self as Ring>::neg_spec(*a),
    {
        let m = Self::modulus_limb();
        let z = L::zero();
        if !z.lt(a.val) {
            proof {
                if a.wf() {
                    lemma_mod_self_0(M as int);
                    Self::lemma_from_rep(0);
                    Self::lemma_eq_by_raw(*a, <Self as Ring>::neg_spec(*a));
                }
            }
            *a
        } else {
            let r = Zm { val: m.wrapping_sub(a.val) };
            proof {
                if a.wf() {
                    L::lemma_limb(a.val, m);
                    lemma_small_mod((M - a.val.nat_of()) as nat, L::base());
                    lemma_small_mod((M - a.val.nat_of()) as nat, M as nat);
                    Self::lemma_from_rep((M - a.val.nat_of()) as nat);
                    Self::lemma_eq_by_raw(r, <Self as Ring>::neg_spec(*a));
                }
            }
            r
        }
    }

    fn eq_total(a: &Self, b: &Self) -> (r: bool)
        ensures
            r == (*a == *b),
    {
        let r = !a.val.lt(b.val) && !b.val.lt(a.val);
        proof {
            L::lemma_limb(a.val, b.val);
        }
        r
    }

    /// The ring laws on representatives, in both storage modes.
    proof fn lemma_rep_laws(x: nat, y: nat, z: nat)
        requires
            Self::m_ok(),
            x < M,
            y < M,
            z < M,
        ensures
            Self::mul_rep(x, y) == Self::mul_rep(y, x),
            Self::mul_rep(Self::mul_rep(x, y), z) == Self::mul_rep(x, Self::mul_rep(y, z)),
            Self::mul_rep(x, Self::one_rep()) == x,
            Self::mul_rep(x, 0) == 0,
            Self::mul_rep(x, (y + z) % (M as nat)) == (Self::mul_rep(x, y) + Self::mul_rep(x, z)) % (
            M as nat),
            Self::mul_rep(x, y) < M,
            Self::one_rep() < M,
            Self::value_of(x) < M,
            Self::value_of(((x + y) % (M as nat)) as nat) as int == ((Self::value_of(x) + Self::value_of(y)) as int) % (
            M as int),
            Self::value_of(((x - y) % (M as int)) as nat) as int == (Self::value_of(x) - Self::value_of(y))
                % (M as int),
            Self::value_of(((M - x) % (M as int)) as nat) as int == (M - Self::value_of(x)) % (M as int),
            Self::value_of(Self::mul_rep(x, y)) as int == ((Self::value_of(x) * Self::value_of(y)) as int) % (
            M as int),
            Self::value_of(x) == Self::value_of(y) ==> x == y,
            Self::value_of(0) == 0,
            Self::value_of(Self::one_rep()) == 1,
    {
        let mi = M as int;
        lemma_mod_ring_laws(x as int, y as int, z as int, mi);
        lemma_mod_bound(x as int + y as int, mi);
        lemma_mod_bound(x as int - y as int, mi);
        lemma_mod_bound(mi - x as int, mi);
        if M % 2 == 1 {
            Self::lemma_params();
            let ri = Self::rinv_spec() as int;
            let base = L::base() as int;
            lemma_mont_ring(x as int, y as int, z as int, mi, ri, base);
            lemma_mont_ring(x as int, 0, 0, mi, ri, base);
            lemma_mont_values(x as int, y as int, mi, ri, base);
            lemma_mod_bound(base, mi);
            lemma_mul_mod_noop_left(base, ri, mi);
            assert(0 * ri == 0);
            lemma_small_mod(0, M as nat);
            lemma_mod_bound(x * ri, mi);
        } else {
            lemma_small_mod(x as nat, M as nat);
            lemma_small_mod(1, M as nat);
            lemma_mod_ring_laws(((x + y) % (M as nat)) as int, 0, 0, mi);
        }
    }

    /// Facts about the operations on valid elements.
    proof fn lemma_ops(a: Self, b: Self)
        requires
            a.wf(),
            b.wf(),
        ensures
            <Self as Ring>::add_spec(a, b).raw_nat() as int == (a.raw_nat() as int + b.raw_nat() as int) % (
            M as int),
            <Self as Ring>::sub_spec(a, b).raw_nat() as int == (a.raw_nat() - b.raw_nat()) % (M as int),
            <Self as Ring>::mul_spec(a, b).raw_nat() == Self::mul_rep(a.raw_nat(), b.raw_nat()),
            <Self as Ring>::neg_spec(a).raw_nat() as int == (M - a.raw_nat()) % (M as int),
            <Self as Ring>::add_spec(a, b).wf(),
            <Self as Ring>::sub_spec(a, b).wf(),
            <Self as Ring>::mul_spec(a, b).wf(),
            <Self as Ring>::neg_spec(a).wf(),
    {
        let x = a.raw_nat();
        let y = b.raw_nat();
        let mi = M as int;
        Self::lemma_rep_laws(x, y, y);
        lemma_mod_ring_laws(x as int, y as int, y as int, mi);
        Self::lemma_from_rep(((x + y) % (M as nat)) as nat);
        Self::lemma_from_rep(((x - y) % mi) as nat);
        Self::lemma_from_rep(Self::mul_rep(x, y));
        Self::lemma_from_rep(((mi - x) % mi) as nat);
    }
}

impl<const M: u64, L: UintLimb> Ring for Zm<M, L> {
    open spec fn params_ok() -> bool {
        Self::m_ok()
    }

    closed spec fn wf(self) -> bool {
        Self::m_ok() && self.val.nat_of() < M
    }

    closed spec fn zero_spec() -> Self {
        Self::from_rep(0)
    }

    closed spec fn one_spec() -> Self {
        Self::from_rep(Self::one_rep())
    }

    closed spec fn add_spec(a: Self, b: Self) -> Self {
        Self::from_rep(((a.val.nat_of() + b.val.nat_of()) % (M as nat)) as nat)
    }

    closed spec fn sub_spec(a: Self, b: Self) -> Self {
        Self::from_rep(((a.val.nat_of() - b.val.nat_of()) % (M as int)) as nat)
    }

    closed spec fn mul_spec(a: Self, b: Self) -> Self {
        Self::from_rep(Self::mul_rep(a.val.nat_of(), b.val.nat_of()))
    }

    closed spec fn neg_spec(a: Self) -> Self {
        Self::from_rep(((M - a.val.nat_of()) % (M as int)) as nat)
    }

    proof fn lemma_wf_params(a: Self) {
    }

    proof fn lemma_identities_wf() {
        Self::lemma_from_rep(0);
        Self::lemma_rep_laws(0, 0, 0);
        Self::lemma_from_rep(Self::one_rep());
    }

    proof fn lemma_closed(a: Self, b: Self) {
        Self::lemma_ops(a, b);
    }

    proof fn lemma_add_laws(a: Self, b: Self, c: Self) {
        Self::lemma_identities_wf();
        let x = a.raw_nat() as int;
        let y = b.raw_nat() as int;
        let z = c.raw_nat() as int;
        lemma_mod_ring_laws(x, y, z, M as int);
        Self::lemma_ops(a, b);
        Self::lemma_ops(b, a);
        Self::lemma_ops(b, c);
        Self::lemma_ops(Self::add_spec(a, b), c);
        Self::lemma_ops(a, Self::add_spec(b, c));
        Self::lemma_from_rep(0);
        Self::lemma_ops(a, Self::zero_spec());
        Self::lemma_ops(a, Self::neg_spec(a));
        Self::lemma_ops(a, Self::neg_spec(b));
        Self::lemma_eq_by_raw(Self::add_spec(a, b), Self::add_spec(b, a));
        Self::lemma_eq_by_raw(
            Self::add_spec(Self::add_spec(a, b), c),
            Self::add_spec(a, Self::add_spec(b, c)),
        );
        Self::lemma_eq_by_raw(Self::add_spec(a, Self::zero_spec()), a);
        Self::lemma_eq_by_raw(Self::add_spec(a, Self::neg_spec(a)), Self::zero_spec());
        Self::lemma_eq_by_raw(Self::sub_spec(a, b), Self::add_spec(a, Self::neg_spec(b)));
    }

    proof fn lemma_mul_laws(a: Self, b: Self, c: Self) {
        Self::lemma_identities_wf();
        let x = a.raw_nat();
        let y = b.raw_nat();
        let z = c.raw_nat();
        Self::lemma_rep_laws(x, y, z);
        lemma_mod_ring_laws(x as int, y as int, z as int, M as int);
        Self::lemma_ops(a, b);
        Self::lemma_ops(b, a);
        Self::lemma_ops(b, c);
        Self::lemma_ops(a, c);
        Self::lemma_ops(Self::mul_spec(a, b), c);
        Self::lemma_ops(a, Self::mul_spec(b, c));
        Self::lemma_from_rep(0);
        Self::lemma_from_rep(Self::one_rep());
        Self::lemma_ops(a, Self::one_spec());
        Self::lemma_ops(a, Self::zero_spec());
        Self::lemma_ops(a, Self::add_spec(b, c));
        Self::lemma_ops(Self::mul_spec(a, b), Self::mul_spec(a, c));
        Self::lemma_eq_by_raw(Self::mul_spec(a, b), Self::mul_spec(b, a));
        Self::lemma_eq_by_raw(
            Self::mul_spec(Self::mul_spec(a, b), c),
            Self::mul_spec(a, Self::mul_spec(b, c)),
        );
        Self::lemma_eq_by_raw(Self::mul_spec(a, Self::one_spec()), a);
        Self::lemma_eq_by_raw(Self::mul_spec(a, Self::zero_spec()), Self::zero_spec());
        Self::lemma_eq_by_raw(
            Self::mul_spec(a, Self::add_spec(b, c)),
            Self::add_spec(Self::mul_spec(a, b), Self::mul_spec(a, c)),
        );
    }

    fn zero() -> (r: Self) {
        let z = L::zero();
        proof {
            Self::lemma_identities_wf();
            L::lemma_limb(z, L::from_nat(0));
            L::lemma_from_nat(0);
            lemma_limb_pow2_values();
        }
        Zm { val: z }
    }

    fn one() -> (r: Self) {
        let r = Self::encode_canonical(1);
        proof {
            Self::lemma_identities_wf();
            Self::lemma_rep_laws(r.val.nat_of(), 0, 0);
            Self::lemma_rep_laws(Self::one_rep(), 0, 0);
            lemma_small_mod(1, M as nat);
            Self::lemma_from_rep(Self::one_rep());
            Self::lemma_rep_laws(r.val.nat_of(), Self::one_rep(), 0);
            Self::lemma_eq_by_raw(r, Self::one_spec());
        }
        r
    }

    fn is_zero(&self) -> (b: bool) {
        let z = Self::zero();
        Self::eq_total(self, &z)
    }

    fn is_one(&self) -> (b: bool) {
        let v = self.decode_canonical();
        proof {
            Self::lemma_identities_wf();
            Self::lemma_from_rep(Self::one_rep());
            Self::lemma_rep_laws(self.val.nat_of(), Self::one_rep(), 0);
            if Self::value_of(self.val.nat_of()) == 1 {
                Self::lemma_eq_by_raw(*self, Self::one_spec());
            }
        }
        v == 1
    }

    fn double(&self) -> (r: Self) {
        Self::add_ref(self, self)
    }

    fn square(&self) -> (r: Self) {
        Self::mul_ref(self, self)
    }

    fn add_ref(a: &Self, b: &Self) -> (r: Self) {
        proof {
            Self::lemma_closed(*a, *b);
        }
        Self::add_total(a, b)
    }

    fn sub_ref(a: &Self, b: &Self) -> (r: Self) {
        proof {
            Self::lemma_closed(*a, *b);
        }
        Self::sub_total(a, b)
    }

    fn mul_ref(a: &Self, b: &Self) -> (r: Self) {
        proof {
            Self::lemma_closed(*a, *b);
        }
        Self::mul_total(a, b)
    }

    fn neg_ref(a: &Self) -> (r: Self) {
        proof {
            Self::lemma_closed(*a, *a);
        }
        Self::neg_total(a)
    }
}

impl<const M: u64, L: UintLimb> IntegerRing for Zm<M, L> {
    open spec fn modulus_spec() -> nat {
        M as nat
    }

    closed spec fn value(self) -> nat {
        Self::value_of(self.val.nat_of())
    }

    proof fn lemma_value(a: Self, b: Self) {
        Self::lemma_ops(a, b);
        Self::lemma_rep_laws(a.raw_nat(), b.raw_nat(), 0);
        if a.value() == b.value() {
            Self::lemma_eq_by_raw(a, b);
        }
    }

    proof fn lemma_identity_values() {
        Self::lemma_identities_wf();
        Self::lemma_from_rep(0);
        Self::lemma_from_rep(Self::one_rep());
        Self::lemma_rep_laws(0, 0, 0);
    }

    fn modulus() -> (m: u64) {
        proof {
            lemma_small_mod(M as nat, pow2_64());
        }
        M
    }

    fn from_u64(val: u64) -> (r: Self) {
        Self::encode_canonical(val)
    }

    fn to_u64(&self) -> (r: u64) {
        self.decode_canonical()
    }

    fn reduce(&self) -> (r: Self) {
        *self
    }
}


impl<const M: u64, L: UintLimb> LargeCanonicalRing for Zm<M, L> {
    type Canonical = u64;

    open spec fn canonical_modulus() -> nat {
        Self::modulus_spec()
    }

    open spec fn canonical_value(self) -> nat {
        self.value()
    }

    proof fn lemma_canonical(a: Self, b: Self) {
        Self::lemma_value(a, b);
    }

    proof fn lemma_modulus_fits() {
    }

    proof fn lemma_canonical_identities() {
        Self::lemma_identity_values();
    }

    fn modulus_canonical() -> (m: u64) {
        Self::modulus()
    }

    fn from_small_u64(v: u64) -> (r: Self) {
        Self::from_u64(v)
    }

    fn from_canonical(c: &u64) -> (r: Self) {
        Self::from_u64(*c)
    }

    fn to_canonical(&self) -> (c: u64) {
        proof {
            Self::lemma_value(*self, *self);
        }
        self.to_u64()
    }

    fn try_to_u64(&self) -> (r: Option<u64>) {
        proof {
            Self::lemma_value(*self, *self);
        }
        Some(self.to_u64())
    }

    fn try_to_u128(&self) -> (r: Option<u128>) {
        proof {
            Self::lemma_value(*self, *self);
        }
        Some(self.to_u64() as u128)
    }
}
impl<const M: u64, L: UintLimb> Zm<M, L> {
    /// `dst[i] += src[i]` for every index.
    pub fn add_assign_slice(dst: &mut [Self], src: &[Self])
        requires
            old(dst)@.len() == src@.len(),
            seq_wf(old(dst)@),
            seq_wf(src@),
        ensures
            final(dst)@.len() == old(dst)@.len(),
            forall|i: int|
                0 <= i < src@.len() ==> #[trigger] final(dst)@[i] == <Self as Ring>::add_spec(
                    old(dst)@[i],
                    src@[i],
                ),
            seq_wf(final(dst)@),
    {
        ring_add_assign_slice(dst, src)
    }

    /// `dst[i] -= src[i]` for every index.
    pub fn sub_assign_slice(dst: &mut [Self], src: &[Self])
        requires
            old(dst)@.len() == src@.len(),
            seq_wf(old(dst)@),
            seq_wf(src@),
        ensures
            final(dst)@.len() == old(dst)@.len(),
            forall|i: int|
                0 <= i < src@.len() ==> #[trigger] final(dst)@[i] == <Self as Ring>::sub_spec(
                    old(dst)@[i],
                    src@[i],
                ),
            seq_wf(final(dst)@),
    {
        ring_sub_assign_slice(dst, src)
    }

    /// `dst[i] *= scalar` for every index.
    pub fn scalar_mul_slice(dst: &mut [Self], scalar: &Self)
        requires
            seq_wf(old(dst)@),
            scalar.wf(),
        ensures
            final(dst)@.len() == old(dst)@.len(),
            forall|i: int|
                0 <= i < old(dst)@.len() ==> #[trigger] final(dst)@[i] == <Self as Ring>::mul_spec(
                    old(dst)@[i],
                    *scalar,
                ),
            seq_wf(final(dst)@),
    {
        ring_scalar_mul_slice(dst, scalar)
    }

    /// `dst[i] *= rhs[i]` for every index.
    pub fn pointwise_mul_assign_slice(dst: &mut [Self], rhs: &[Self])
        requires
            old(dst)@.len() == rhs@.len(),
            seq_wf(old(dst)@),
            seq_wf(rhs@),
        ensures
            final(dst)@.len() == old(dst)@.len(),
            forall|i: int|
                0 <= i < rhs@.len() ==> #[trigger] final(dst)@[i] == <Self as Ring>::mul_spec(
                    old(dst)@[i],
                    rhs@[i],
                ),
            seq_wf(final(dst)@),
    {
        ring_pointwise_mul_assign_slice(dst, rhs)
    }

    /// `sum_i lhs[i] * rhs[i]`.
    pub fn dot_product(lhs: &[Self], rhs: &[Self]) -> (r: Self)
        requires
            lhs@.len() == rhs@.len(),
            seq_wf(lhs@),
            seq_wf(rhs@),
            <Self as Ring>::params_ok(),
        ensures
            r == dot_spec(lhs@, rhs@),
            r.wf(),
    {
        ring_dot_product(lhs, rhs)
    }

    /// `dst[i] += src[i] * scalar` for every index.
    pub fn add_assign_scaled_slice(dst: &mut [Self], src: &[Self], scalar: &Self)
        requires
            old(dst)@.len() == src@.len(),
            seq_wf(old(dst)@),
            seq_wf(src@),
            scalar.wf(),
        ensures
            final(dst)@.len() == old(dst)@.len(),
            forall|i: int|
                0 <= i < src@.len() ==> #[trigger] final(dst)@[i] == <Self as Ring>::add_spec(
                    old(dst)@[i],
                    <Self as Ring>::mul_spec(src@[i], *scalar),
                ),
            seq_wf(final(dst)@),
    {
        ring_add_assign_scaled_slice(dst, src, scalar)
    }

    /// `self^exp` by repeated squaring.
    pub fn pow(&self, exp: u64) -> (r: Self)
        requires
            self.wf(),
        ensures
            r == pow_spec(*self, exp as nat),
            r.wf(),
    {
        ring_pow(self, exp)
    }
}

impl<const M: u64, L: UintLimb> core::ops::Add for Zm<M, L> {
    type Output = Self;

    fn add(self, rhs: Self) -> (r: Self) {
        Self::add_total(&self, &rhs)
    }
}

impl<const M: u64, L: UintLimb> vstd::std_specs::ops::AddSpecImpl for Zm<M, L> {
    open spec fn obeys_add_spec() -> bool {
        true
    }

    open spec fn add_req(self, rhs: Self) -> bool {
        self.wf() && rhs.wf()
    }

    open spec fn add_spec(self, rhs: Self) -> Self {
        <Self as Ring>::add_spec(self, rhs)
    }
}

impl<'a, const M: u64, L: UintLimb> core::ops::Add<&'a Zm<M, L>> for Zm<M, L> {
    type Output = Self;

    fn add(self, rhs: &'a Zm<M, L>) -> Self {
        Self::add_total(&self, rhs)
    }
}

impl<'a, const M: u64, L: UintLimb> vstd::std_specs::ops::AddSpecImpl<&'a Zm<M, L>> for Zm<M, L> {
    open spec fn obeys_add_spec() -> bool {
        true
    }

    open spec fn add_req(self, rhs: &'a Zm<M, L>) -> bool {
        self.wf() && rhs.wf()
    }

    open spec fn add_spec(self, rhs: &'a Zm<M, L>) -> Self {
        <Self as Ring>::add_spec(self, *rhs)
    }
}

impl<const M: u64, L: UintLimb> core::ops::AddAssign for Zm<M, L> {
    fn add_assign(&mut self, rhs: Self)
        ensures
            old(self).wf() && rhs.wf() ==> *final(self) == <Self as Ring>::add_spec(*old(self), rhs),
    {
        *self = Self::add_total(self, &rhs);
    }
}

impl<'a, const M: u64, L: UintLimb> core::ops::AddAssign<&'a Zm<M, L>> for Zm<M, L> {
    fn add_assign(&mut self, rhs: &'a Zm<M, L>)
        ensures
            old(self).wf() && rhs.wf() ==> *final(self) == <Self as Ring>::add_spec(*old(self), *rhs),
    {
        *self = Self::add_total(self, rhs);
    }
}

impl<'a, const M: u64, L: UintLimb> core::ops::Add<&'a Zm<M, L>> for &'a Zm<M, L> {
    type Output = Zm<M, L>;

    fn add(self, rhs: &'a Zm<M, L>) -> Zm<M, L> {
        Zm::<M, L>::add_total(self, rhs)
    }
}

impl<'a, const M: u64, L: UintLimb> vstd::std_specs::ops::AddSpecImpl<&'a Zm<M, L>> for &'a Zm<M, L> {
    open spec fn obeys_add_spec() -> bool {
        true
    }

    open spec fn add_req(self, rhs: &'a Zm<M, L>) -> bool {
        self.wf() && rhs.wf()
    }

    open spec fn add_spec(self, rhs: &'a Zm<M, L>) -> Zm<M, L> {
        <Zm<M, L> as Ring>::add_spec(*self, *rhs)
    }
}

impl<'a, const M: u64, L: UintLimb> core::ops::Add<Zm<M, L>> for &'a Zm<M, L> {
    type Output = Zm<M, L>;

    fn add(self, rhs: Zm<M, L>) -> Zm<M, L> {
        Zm::<M, L>::add_total(self, &rhs)
    }
}

impl<'a, const M: u64, L: UintLimb> vstd::std_specs::ops::AddSpecImpl<Zm<M, L>> for &'a Zm<M, L> {
    open spec fn obeys_add_spec() -> bool {
        true
    }

    open spec fn add_req(self, rhs: Zm<M, L>) -> bool {
        self.wf() && rhs.wf()
    }

    open spec fn add_spec(self, rhs: Zm<M, L>) -> Zm<M, L> {
        <Zm<M, L> as Ring>::add_spec(*self, rhs)
    }
}

impl<const M: u64, L: UintLimb> core::ops::Sub for Zm<M, L> {
    type Output = Self;

    fn sub(self, rhs: Self) -> (r: Self) {
        Self::sub_total(&self, &rhs)
    }
}

impl<const M: u64, L: UintLimb> vstd::std_specs::ops::SubSpecImpl for Zm<M, L> {
    open spec fn obeys_sub_spec() -> bool {
        true
    }

    open spec fn sub_req(self, rhs: Self) -> bool {
        self.wf() && rhs.wf()
    }

    open spec fn sub_spec(self, rhs: Self) -> Self {
        <Self as Ring>::sub_spec(self, rhs)
    }
}

impl<'a, const M: u64, L: UintLimb> core::ops::Sub<&'a Zm<M, L>> for Zm<M, L> {
    type Output = Self;

    fn sub(self, rhs: &'a Zm<M, L>) -> Self {
        Self::sub_total(&self, rhs)
    }
}

impl<'a, const M: u64, L: UintLimb> vstd::std_specs::ops::SubSpecImpl<&'a Zm<M, L>> for Zm<M, L> {
    open spec fn obeys_sub_spec() -> bool {
        true
    }

    open spec fn sub_req(self, rhs: &'a Zm<M, L>) -> bool {
        self.wf() && rhs.wf()
    }

    open spec fn sub_spec(self, rhs: &'a Zm<M, L>) -> Self {
        <Self as Ring>::sub_spec(self, *rhs)
    }
}

impl<const M: u64, L: UintLimb> core::ops::SubAssign for Zm<M, L> {
    fn sub_assign(&mut self, rhs: Self)
        ensures
            old(self).wf() && rhs.wf() ==> *final(self) == <Self as Ring>::sub_spec(*old(self), rhs),
    {
        *self = Self::sub_total(self, &rhs);
    }
}

impl<'a, const M: u64, L: UintLimb> core::ops::SubAssign<&'a Zm<M, L>> for Zm<M, L> {
    fn sub_assign(&mut self, rhs: &'a Zm<M, L>)
        ensures
            old(self).wf() && rhs.wf() ==> *final(self) == <Self as Ring>::sub_spec(*old(self), *rhs),
    {
        *self = Self::sub_total(self, rhs);
    }
}

impl<'a, const M: u64, L: UintLimb> core::ops::Sub<&'a Zm<M, L>> for &'a Zm<M, L> {
    type Output = Zm<M, L>;

    fn sub(self, rhs: &'a Zm<M, L>) -> Zm<M, L> {
        Zm::<M, L>::sub_total(self, rhs)
    }
}

impl<'a, const M: u64, L: UintLimb> vstd::std_specs::ops::SubSpecImpl<&'a Zm<M, L>> for &'a Zm<M, L> {
    open spec fn obeys_sub_spec() -> bool {
        true
    }

    open spec fn sub_req(self, rhs: &'a Zm<M, L>) -> bool {
        self.wf() && rhs.wf()
    }

    open spec fn sub_spec(self, rhs: &'a Zm<M, L>) -> Zm<M, L> {
        <Zm<M, L> as Ring>::sub_spec(*self, *rhs)
    }
}

impl<'a, const M: u64, L: UintLimb> core::ops::Sub<Zm<M, L>> for &'a Zm<M, L> {
    type Output = Zm<M, L>;

    fn sub(self, rhs: Zm<M, L>) -> Zm<M, L> {
        Zm::<M, L>::sub_total(self, &rhs)
    }
}

impl<'a, const M: u64, L: UintLimb> vstd::std_specs::ops::SubSpecImpl<Zm<M, L>> for &'a Zm<M, L> {
    open spec fn obeys_sub_spec() -> bool {
        true
    }

    open spec fn sub_req(self, rhs: Zm<M, L>) -> bool {
        self.wf() && rhs.wf()
    }

    open spec fn sub_spec(self, rhs: Zm<M, L>) -> Zm<M, L> {
        <Zm<M, L> as Ring>::sub_spec(*self, rhs)
    }
}

impl<const M: u64, L: UintLimb> core::ops::Mul for Zm<M, L> {
    type Output = Self;

    fn mul(self, rhs: Self) -> (r: Self) {
        Self::mul_total(&self, &rhs)
    }
}

impl<const M: u64, L: UintLimb> vstd::std_specs::ops::MulSpecImpl for Zm<M, L> {
    open spec fn obeys_mul_spec() -> bool {
        true
    }

    open spec fn mul_req(self, rhs: Self) -> bool {
        self.wf() && rhs.wf()
    }

    open spec fn mul_spec(self, rhs: Self) -> Self {
        <Self as Ring>::mul_spec(self, rhs)
    }
}

impl<'a, const M: u64, L: UintLimb> core::ops::Mul<&'a Zm<M, L>> for Zm<M, L> {
    type Output = Self;

    fn mul(self, rhs: &'a Zm<M, L>) -> Self {
        Self::mul_total(&self, rhs)
    }
}

impl<'a, const M: u64, L: UintLimb> vstd::std_specs::ops::MulSpecImpl<&'a Zm<M, L>> for Zm<M, L> {
    open spec fn obeys_mul_spec() -> bool {
        true
    }

    open spec fn mul_req(self, rhs: &'a Zm<M, L>) -> bool {
        self.wf() && rhs.wf()
    }

    open spec fn mul_spec(self, rhs: &'a Zm<M, L>) -> Self {
        <Self as Ring>::mul_spec(self, *rhs)
    }
}

impl<const M: u64, L: UintLimb> core::ops::MulAssign for Zm<M, L> {
    fn mul_assign(&mut self, rhs: Self)
        ensures
            old(self).wf() && rhs.wf() ==> *final(self) == <Self as Ring>::mul_spec(*old(self), rhs),
    {
        *self = Self::mul_total(self, &rhs);
    }
}

impl<'a, const M: u64, L: UintLimb> core::ops::MulAssign<&'a Zm<M, L>> for Zm<M, L> {
    fn mul_assign(&mut self, rhs: &'a Zm<M, L>)
        ensures
            old(self).wf() && rhs.wf() ==> *final(self) == <Self as Ring>::mul_spec(*old(self), *rhs),
    {
        *self = Self::mul_total(self, rhs);
    }
}

impl<'a, const M: u64, L: UintLimb> core::ops::Mul<&'a Zm<M, L>> for &'a Zm<M, L> {
    type Output = Zm<M, L>;

    fn mul(self, rhs: &'a Zm<M, L>) -> Zm<M, L> {
        Zm::<M, L>::mul_total(self, rhs)
    }
}

impl<'a, const M: u64, L: UintLimb> vstd::std_specs::ops::MulSpecImpl<&'a Zm<M, L>> for &'a Zm<M, L> {
    open spec fn obeys_mul_spec() -> bool {
        true
    }

    open spec fn mul_req(self, rhs: &'a Zm<M, L>) -> bool {
        self.wf() && rhs.wf()
    }

    open spec fn mul_spec(self, rhs: &'a Zm<M, L>) -> Zm<M, L> {
        <Zm<M, L> as Ring>::mul_spec(*self, *rhs)
    }
}

impl<'a, const M: u64, L: UintLimb> core::ops::Mul<Zm<M, L>> for &'a Zm<M, L> {
    type Output = Zm<M, L>;

    fn mul(self, rhs: Zm<M, L>) -> Zm<M, L> {
        Zm::<M, L>::mul_total(self, &rhs)
    }
}

impl<'a, const M: u64, L: UintLimb> vstd::std_specs::ops::MulSpecImpl<Zm<M, L>> for &'a Zm<M, L> {
    open spec fn obeys_mul_spec() -> bool {
        true
    }

    open spec fn mul_req(self, rhs: Zm<M, L>) -> bool {
        self.wf() && rhs.wf()
    }

    open spec fn mul_spec(self, rhs: Zm<M, L>) -> Zm<M, L> {
        <Zm<M, L> as Ring>::mul_spec(*self, rhs)
    }
}

impl<const M: u64, L: UintLimb> core::ops::Neg for Zm<M, L> {
    type Output = Self;

    fn neg(self) -> (r: Self) {
        Self::neg_total(&self)
    }
}

impl<const M: u64, L: UintLimb> vstd::std_specs::ops::NegSpecImpl for Zm<M, L> {
    open spec fn obeys_neg_spec() -> bool {
        true
    }

    open spec fn neg_req(self) -> bool {
        self.wf()
    }

    open spec fn neg_spec(self) -> Self {
        <Self as Ring>::neg_spec(self)
    }
}

impl<const M: u64, L: UintLimb> PartialEq for Zm<M, L> {
    fn eq(&self, other: &Self) -> (r: bool) {
        Self::eq_total(self, other)
    }
}

impl<const M: u64, L: UintLimb> vstd::std_specs::cmp::PartialEqSpecImpl for Zm<M, L> {
    open spec fn obeys_eq_spec() -> bool {
        true
    }

    open spec fn eq_spec(&self, other: &Self) -> bool {
        *self == *other
    }
}

impl<const M: u64, L: UintLimb> Eq for Zm<M, L> {}

} // verus!
