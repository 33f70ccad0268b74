//! Fixed-profile residue-number-system rings over moduli wider than 64 bits.
//!
//! An element is held as its residues modulo pairwise-coprime 64-bit moduli
//! `m_0, ..., m_{k-1}`; its canonical value in `[0, M)`, `M = m_0 * ... * m_{k-1}`,
//! is rebuilt with Garner's mixed-radix algorithm.
use crate::arith::bigint::{
    BigUint, array_from_limbs, lemma_array_from_limbs, lemma_limbs_value_bound, limbs_value,
};
use crate::arith::large_modulus::{CanonicalValue, LargeCanonicalRing};
use crate::arith::modular::lemma_mod_ring_laws;
use crate::arith::ring::Ring;
use crate::arith::rns::{
    garner_sum, lemma_cong_is_mod, lemma_cong_mod, lemma_cong_trans, lemma_crt_exists, lemma_crt_unique,
    lemma_garner_bound, lemma_garner_tail, lemma_mod_divisor, lemma_modulus_multiple,
    lemma_prefix_product_mono, prefix_product, valid_basis,
};
use crate::arith::large_zm::{append_limbs_le, lemma_byte_pow_limbs, read_limbs_le};
use crate::serialize::{
    CanonicalDeserialize, CanonicalSerialize, SerializationError, byte_pow, le_encode, le_value, lemma_le_encode,
    lemma_le_encode_value,
};
use crate::arith::composite::CompositeRing;
use crate::arith::rns::RnsBasis;
use core::marker::PhantomData;
use std::sync::Arc;
use vstd::arithmetic::div_mod::{
    lemma_fundamental_div_mod, lemma_mod_bound, lemma_mod_multiples_basic,
    lemma_mod_multiples_vanish, lemma_small_mod, lemma_add_mod_noop, lemma_sub_mod_noop, lemma_mul_mod_noop,
};
use vstd::prelude::*;

verus! {

/// Compile-time metadata for a fixed residue-number-system ring.
pub trait LargeRnsProfile<const LIMBS: usize> {
    /// Pairwise-coprime component moduli in the fixed residue order.
    const MODULI: [u64; LIMBS];
    /// Largest `s` such that `2^s` divides every `m_i - 1`.
    const TWO_ADICITY: usize;
    /// Primitive `2^TWO_ADICITY`-th root of unity in residue order.
    const TWO_ADIC_ROOT: [u64; LIMBS];
    /// Composite modulus product in little-endian limb order.
    const MODULUS: [u64; LIMBS];
    /// Prefix products where `PREFIX_PRODUCTS[i] = product_{j < i} MODULI[j]`.
    const PREFIX_PRODUCTS: [[u64; LIMBS]; LIMBS];
    /// Garner inverses where `GARNER_INVERSES[i][j] = m_j^(-1) mod m_i` for `j < i`.
    const GARNER_INVERSES: [[u64; LIMBS]; LIMBS];
}

/// The 3-limb profile of the first shipping large-RNS backend.
pub struct Rns3V0Profile;

impl LargeRnsProfile<3> for Rns3V0Profile {
    const MODULI: [u64; 3] = [0x0000_1000_01d0_0001, 0x0000_1000_03b0_0001, 0x0000_1000_0450_0001];
    const TWO_ADICITY: usize = 20;
    const TWO_ADIC_ROOT: [u64; 3] = [
        0x0000_027a_5925_d381,
        0x0000_0a5b_4405_efa4,
        0x0000_0845_904c_0ef3,
    ];
    const MODULUS: [u64; 3] = [0xb01e_9700_09d0_0001, 0x0009_d001_e970_1e0c, 0x10];
    const PREFIX_PRODUCTS: [[u64; 3]; 3] = [
        [0x1, 0x0, 0x0],
        [0x0000_1000_01d0_0001, 0x0, 0x0],
        [0x0006_cf00_0580_0001, 0x0000_0000_0100_0058, 0x0],
    ];
    const GARNER_INVERSES: [[u64; 3]; 3] = [
        [0, 0, 0],
        [0x0000_0800_01e0_888b, 0, 0],
        [0x0000_0e00_03cc_6669, 0x0000_0800_0241_99a1, 0],
    ];
}

/// A mixed-radix number depends on its first `k` digits only.
proof fn lemma_garner_sum_prefix(m: Seq<u64>, c1: Seq<u64>, c2: Seq<u64>, k: int)
    requires
        forall|j: int| 0 <= j < k ==> c1[j] == c2[j],
    ensures
        garner_sum(m, c1, k) == garner_sum(m, c2, k),
    decreases k,
{
    if k > 0 {
        lemma_garner_sum_prefix(m, c1, c2, k - 1);
    }
}

/// `d` is `u - c` modulo `p` when it is `u - (c mod p)`, or that plus `p`.
proof fn lemma_sub_rep(p: int, u: int, c: int, d: int)
    requires
        p >= 2,
        c >= 0,
        d == u - c % p || d == u - c % p + p,
    ensures
        (d + c - u) % p == 0,
{
    lemma_fundamental_div_mod(c, p);
    if d == u - c % p {
        lemma_mod_multiples_basic(c / p, p);
        assert(d + c - u == (c / p) * p) by (nonlinear_arith)
            requires
                c == p * (c / p) + c % p,
                d == u - c % p,
        ;
    } else {
        lemma_mod_multiples_basic(c / p + 1, p);
        assert(d + c - u == (c / p + 1) * p) by (nonlinear_arith)
            requires
                c == p * (c / p) + c % p,
                d == u - c % p + p,
        ;
    }
}

/// One step of Garner's algorithm: with `u * P_j + mixed = r (mod p)`, the next
/// digit candidate `u' = (u - c_j) * m_j^{-1} mod p` satisfies
/// `u' * P_j * m_j + (mixed + c_j * P_j) = r (mod p)`.
proof fn lemma_garner_step(p: int, u: int, cj: int, d: int, g: int, mj: int, pj: int, mixed: int, r: int, u2: int)
    requires
        p >= 2,
        (g * mj) % p == 1,
        (u * pj + mixed) % p == r,
        (d + cj - u) % p == 0,
        u2 == (d * g) % p,
    ensures
        (u2 * (pj * mj) + (mixed + cj * pj)) % p == r,
{
    lemma_fundamental_div_mod(g * mj, p);
    lemma_fundamental_div_mod(d * g, p);
    lemma_fundamental_div_mod(d + cj - u, p);
    let k3 = (g * mj) / p;
    let k1 = (d * g) / p;
    let k2 = (d + cj - u) / p;
    let kk = k2 * pj + d * pj * k3 - k1 * pj * mj;
    let a = pj * mj;
    assert(u2 * a == (d * g) * a - (p * k1) * a) by (nonlinear_arith)
        requires
            u2 == d * g - p * k1,
    ;
    assert((d * g) * a == d * pj * (g * mj)) by (nonlinear_arith)
        requires
            a == pj * mj,
    ;
    assert((p * k1) * a == p * (k1 * pj * mj)) by (nonlinear_arith)
        requires
            a == pj * mj,
    ;
    assert(d * pj * (g * mj) == d * pj + p * (d * pj * k3)) by (nonlinear_arith)
        requires
            g * mj == p * k3 + 1,
    ;
    assert(d * pj == u * pj - cj * pj + p * (k2 * pj)) by (nonlinear_arith)
        requires
            d == u - cj + p * k2,
    ;
    assert(p * kk == p * (k2 * pj) + p * (d * pj * k3) - p * (k1 * pj * mj)) by (nonlinear_arith)
        requires
            kk == k2 * pj + d * pj * k3 - k1 * pj * mj,
    ;
    lemma_mod_multiples_vanish(kk, u * pj + mixed, p);
}

/// Fixed-profile residue-domain ring element.
pub struct LargeRns<P: LargeRnsProfile<LIMBS>, const LIMBS: usize> {
    residues: [u64; LIMBS],
    _profile: PhantomData<P>,
}

/// The 3-limb large-RNS backend.
pub type Rns3V0 = LargeRns<Rns3V0Profile, 3>;

impl<P: LargeRnsProfile<LIMBS>, const LIMBS: usize> LargeRns<P, LIMBS> {
    /// The profile's constants agree: the moduli form a basis (non-empty, each at
    /// least 2, pairwise coprime), the prefix products and the composite modulus are
    /// the products of the moduli, and each Garner constant inverts `m_j` modulo
    /// `m_i`.
    pub open spec fn profile_ok() -> bool {
        &&& valid_basis(P::MODULI@)
        &&& forall|i: int| 0 <= i < LIMBS ==> #[trigger] P::MODULI@[i] >= 2
        &&& forall|i: int|
            0 <= i < LIMBS ==> limbs_value(#[trigger] P::PREFIX_PRODUCTS@[i]@) == prefix_product(P::MODULI@, i)
        &&& limbs_value(P::MODULUS@) == prefix_product(P::MODULI@, LIMBS as int)
        &&& forall|i: int, j: int|
            0 <= j < i < LIMBS ==> ((#[trigger] P::GARNER_INVERSES@[i]@[j]) as nat * (P::MODULI@[j] as nat))
                % (P::MODULI@[i] as nat) == 1
    }

    /// The composite modulus `M`.
    pub open spec fn modulus_spec() -> nat {
        limbs_value(P::MODULUS@)
    }

    /// The residues in profile order.
    pub closed spec fn residues_spec(&self) -> Seq<u64> {
        self.residues@
    }

    /// Two elements with the same residues are the same element.
    pub proof fn lemma_same_residues(a: Self, b: Self)
        requires
            a.residues_spec() == b.residues_spec(),
        ensures
            a == b,
    {
        broadcast use vstd::array::axiom_array_ext_equal;
        assert(a.residues =~= b.residues);
    }

    /// The raw residues in profile order.
    pub fn residues(&self) -> (r: &[u64; LIMBS])
        ensures
            r@ == self.residues_spec(),
    {
        &self.residues
    }

    /// Validate and construct from raw residues: each must be below its modulus.
    pub fn try_from_residues(residues: [u64; LIMBS]) -> (r: Result<Self, SerializationError>)
        requires
            Self::profile_ok(),
        ensures
            r is Ok <==> forall|i: int| 0 <= i < LIMBS ==> residues@[i] < P::MODULI@[i],
            r matches Ok(x) ==> x.wf() && x.residues_spec() == residues@,
    {
        let mut i: usize = 0;
        while i < LIMBS
            invariant
                i <= LIMBS,
                forall|k: int| 0 <= k < i ==> residues@[k] < P::MODULI@[k],
            decreases LIMBS - i,
        {
            if residues[i] >= P::MODULI[i] {
                return Err(SerializationError::InvalidData("residue is not below its modulus".to_owned()));
            }
            i = i + 1;
        }
        Ok(LargeRns { residues, _profile: PhantomData })
    }

    /// The canonical value in `[0, M)` with the element's residues, by Garner's
    /// mixed-radix algorithm.
    pub fn reconstruct_canonical(&self) -> (r: BigUint<LIMBS>)
        requires
            self.wf(),
        ensures
            r.value() < Self::modulus_spec(),
            forall|i: int| 0 <= i < LIMBS ==> r.value() % (P::MODULI@[i] as nat) == self.residues_spec()[i],
    {
        let ghost m = P::MODULI@;
        let ghost res = self.residues@;
        proof {
            lemma_limbs_value_bound(P::MODULUS@);
        }
        if LIMBS == 0 {
            let z = BigUint::<LIMBS>::zero();
            proof {
                assert(prefix_product(m, 0) == 1);
            }
            return z;
        }
        let mut coeffs = [0u64; LIMBS];
        coeffs[0] = self.residues[0];
        proof {
            lemma_small_mod(res[0] as nat, m[0] as nat);
            assert(prefix_product(m, 0) == 1);
            assert(garner_sum(m, coeffs@, 0) == 0);
            assert(coeffs@[0] == res[0]);
            assert((coeffs@[0] as nat) * 1 == coeffs@[0]);
            assert(garner_sum(m, coeffs@, 1) == res[0]);
        }
        let mut i: usize = 1;
        while i < LIMBS
            invariant
                self.wf(),
                m == P::MODULI@,
                res == self.residues@,
                1 <= i <= LIMBS,
                coeffs@.len() == LIMBS,
                forall|k: int| 0 <= k < i ==> coeffs@[k] < m[k],
                forall|k: int|
                    0 <= k < i ==> #[trigger] (garner_sum(m, coeffs@, k + 1) % (m[k] as nat)) == res[k],
            decreases LIMBS - i,
        {
            let p_i: u128 = P::MODULI[i] as u128;
            let mut u: u128 = self.residues[i] as u128;
            proof {
                lemma_small_mod(res[i as int] as nat, m[i as int] as nat);
                assert(prefix_product(m, 0) == 1);
                assert((u * prefix_product(m, 0) + garner_sum(m, coeffs@, 0)) % (p_i as int) == res[i as int]);
            }
            let mut j: usize = 0;
            while j < i
                invariant
                    self.wf(),
                    m == P::MODULI@,
                    res == self.residues@,
                    1 <= i < LIMBS,
                    j <= i,
                    coeffs@.len() == LIMBS,
                    p_i == m[i as int],
                    u < p_i,
                    (u * prefix_product(m, j as int) + garner_sum(m, coeffs@, j as int)) % (p_i as int) == res[i as int],
                decreases i - j,
            {
                let ghost u0 = u as int;
                let cj = coeffs[j];
                let coeff_mod = (cj as u128) % p_i;
                if u >= coeff_mod {
                    u = (u - coeff_mod) % p_i;
                    proof {
                        lemma_small_mod((u0 - coeff_mod) as nat, p_i as nat);
                    }
                } else {
                    u = p_i - ((coeff_mod - u) % p_i);
                    proof {
                        lemma_mod_bound(cj as int, p_i as int);
                        lemma_small_mod((coeff_mod - u0) as nat, p_i as nat);
                    }
                }
                let ghost d = u as int;
                let g = P::GARNER_INVERSES[i][j];
                proof {
                    lemma_sub_rep(p_i as int, u0, cj as int, d);
                    assert(u * (g as u128) < 0x1_0000_0000_0000_0000_0000_0000_0000_0000) by (nonlinear_arith)
                        requires
                            u < p_i,
                            p_i <= 0xffff_ffff_ffff_ffff,
                            g <= 0xffff_ffff_ffff_ffff,
                    ;
                }
                u = (u * (g as u128)) % p_i;
                proof {
                    let pj = prefix_product(m, j as int) as int;
                    let mixed = garner_sum(m, coeffs@, j as int) as int;
                    lemma_garner_step(
                        p_i as int,
                        u0,
                        cj as int,
                        d,
                        g as int,
                        m[j as int] as int,
                        pj,
                        mixed,
                        res[i as int] as int,
                        u as int,
                    );
                    lemma_mod_bound((d * g) as int, p_i as int);
                    assert(prefix_product(m, j + 1) == pj * (m[j as int] as int));
                }
                j = j + 1;
            }
            let ghost before = coeffs@;
            coeffs[i] = u as u64;
            proof {
                lemma_garner_sum_prefix(m, before, coeffs@, i as int);
                assert forall|k: int| 0 <= k < i + 1 implies #[trigger] (garner_sum(m, coeffs@, k + 1)
                    % (m[k] as nat)) == res[k] by {
                    if k < i {
                        lemma_garner_sum_prefix(m, before, coeffs@, k + 1);
                    }
                }
            }
            i = i + 1;
        }
        proof {
            assert forall|t: int| 0 <= t < m.len() implies #[trigger] m[t] > 1 by {
                assert(P::MODULI@[t] >= 2);
            }
            lemma_prefix_product_mono(m, LIMBS as int, LIMBS as int);
        }
        let mut result = BigUint::<LIMBS>::zero();
        let mut k: usize = 0;
        while k < LIMBS
            invariant
                self.wf(),
                m == P::MODULI@,
                k <= LIMBS,
                coeffs@.len() == LIMBS,
                forall|t: int| 0 <= t < LIMBS ==> coeffs@[t] < m[t],
                forall|t: int| 0 <= t < m.len() ==> #[trigger] m[t] > 1,
                result.value() == garner_sum(m, coeffs@, k as int),
                Self::modulus_spec() < BigUint::<LIMBS>::bound(),
            decreases LIMBS - k,
        {
            let product = BigUint::<LIMBS> { limbs: P::PREFIX_PRODUCTS[k] };
            let (term, carry_term) = product.mul_by_limb(coeffs[k]);
            proof {
                lemma_garner_bound(m, coeffs@, (k + 1) as int);
                lemma_prefix_product_mono(m, (k + 1) as int, LIMBS as int);
                lemma_prefix_product_mono(m, k as int, LIMBS as int);
                let pk = prefix_product(m, k as int);
                let ck = coeffs@[k as int] as nat;
                assert(product.limbs@ == P::PREFIX_PRODUCTS@[k as int]@);
                assert(product.value() == pk);
                assert(ck * pk == pk * ck) by (nonlinear_arith);
                assert(pk * ck <= garner_sum(m, coeffs@, k + 1));
                if carry_term > 0 {
                    assert(carry_term * BigUint::<LIMBS>::bound() >= BigUint::<LIMBS>::bound()) by (nonlinear_arith)
                        requires
                            carry_term >= 1,
                    ;
                }
            }
            let (sum, carry_sum) = result.add_with_carry(&term);
            proof {
                let pk = prefix_product(m, k as int);
                let ck = coeffs@[k as int] as nat;
                assert(carry_term == 0);
                assert(carry_term * BigUint::<LIMBS>::bound() == 0) by (nonlinear_arith)
                    requires
                        carry_term == 0,
                ;
                assert(product.value() == pk);
                assert(term.value() == pk * ck);
                assert(garner_sum(m, coeffs@, k + 1) == garner_sum(m, coeffs@, k as int) + ck * pk);
                assert(ck * pk == pk * ck) by (nonlinear_arith);
                assert(!carry_sum);
            }
            result = sum;
            k = k + 1;
        }
        proof {
            lemma_garner_bound(m, coeffs@, LIMBS as int);
            assert forall|t: int| 0 <= t < LIMBS implies result.value() % (m[t] as nat) == res[t] by {
                lemma_garner_tail(m, coeffs@, t, LIMBS as int);
                lemma_cong_mod(garner_sum(m, coeffs@, t + 1) as int, m[t] as int);
                lemma_cong_trans(
                    garner_sum(m, coeffs@, LIMBS as int) as int,
                    garner_sum(m, coeffs@, t + 1) as int,
                    garner_sum(m, coeffs@, t + 1) as int % (m[t] as int),
                    m[t] as int,
                );
                lemma_cong_is_mod(garner_sum(m, coeffs@, LIMBS as int) as int, res[t] as int, m[t] as int);
            }
        }
        result
    }
}


impl<P: LargeRnsProfile<LIMBS>, const LIMBS: usize> LargeRns<P, LIMBS> {
    /// The element `value mod M`, residue by residue.
    pub fn from_small_u64(value: u64) -> (r: Self)
        requires
            Self::profile_ok(),
        ensures
            r.wf(),
            forall|i: int| 0 <= i < LIMBS ==> #[trigger] r.residues_spec()[i] == value % P::MODULI@[i],
    {
        let mut residues = [0u64; LIMBS];
        let mut i: usize = 0;
        while i < LIMBS
            invariant
                Self::profile_ok(),
                i <= LIMBS,
                residues@.len() == LIMBS,
                forall|k: int| 0 <= k < i ==> #[trigger] residues@[k] == value % P::MODULI@[k],
            decreases LIMBS - i,
        {
            proof {
                assert(P::MODULI@[i as int] >= 2);
            }
            residues[i] = value % P::MODULI[i];
            i = i + 1;
        }
        proof {
            assert forall|k: int| 0 <= k < LIMBS implies residues@[k] < P::MODULI@[k] by {
                assert(P::MODULI@[k] >= 2);
                lemma_mod_bound(value as int, P::MODULI@[k] as int);
            }
        }
        LargeRns { residues, _profile: PhantomData }
    }

    /// Residue-wise sum: `(a_i + b_i) mod m_i`.
    pub fn add_residues(&self, rhs: &Self) -> (r: Self)
        requires
            self.wf(),
            rhs.wf(),
        ensures
            r.wf(),
            forall|i: int|
                0 <= i < LIMBS ==> #[trigger] r.residues_spec()[i] as int == (self.residues_spec()[i]
                    + rhs.residues_spec()[i]) % (P::MODULI@[i] as int),
    {
        let mut residues = [0u64; LIMBS];
        let mut i: usize = 0;
        while i < LIMBS
            invariant
                self.wf(),
                rhs.wf(),
                i <= LIMBS,
                residues@.len() == LIMBS,
                forall|k: int|
                    0 <= k < i ==> #[trigger] residues@[k] as int == (self.residues@[k] + rhs.residues@[k])
                        % (P::MODULI@[k] as int),
                forall|k: int| 0 <= k < i ==> #[trigger] residues@[k] < P::MODULI@[k],
            decreases LIMBS - i,
        {
            let modulus = P::MODULI[i] as u128;
            let sum = self.residues[i] as u128 + rhs.residues[i] as u128;
            let v = if sum >= modulus {
                proof {
                    vstd::arithmetic::div_mod::lemma_fundamental_div_mod_converse(
                        sum as int,
                        modulus as int,
                        1,
                        (sum - modulus) as int,
                    );
                }
                (sum - modulus) as u64
            } else {
                proof {
                    lemma_small_mod(sum as nat, modulus as nat);
                }
                sum as u64
            };
            residues[i] = v;
            i = i + 1;
        }
        LargeRns { residues, _profile: PhantomData }
    }

    /// Residue-wise difference: `(a_i - b_i) mod m_i`.
    pub fn sub_residues(&self, rhs: &Self) -> (r: Self)
        requires
            self.wf(),
            rhs.wf(),
        ensures
            r.wf(),
            forall|i: int|
                0 <= i < LIMBS ==> #[trigger] r.residues_spec()[i] as int == (self.residues_spec()[i]
                    - rhs.residues_spec()[i]) % (P::MODULI@[i] as int),
    {
        let mut residues = [0u64; LIMBS];
        let mut i: usize = 0;
        while i < LIMBS
            invariant
                self.wf(),
                rhs.wf(),
                i <= LIMBS,
                residues@.len() == LIMBS,
                forall|k: int|
                    0 <= k < i ==> #[trigger] residues@[k] as int == (self.residues@[k] - rhs.residues@[k])
                        % (P::MODULI@[k] as int),
                forall|k: int| 0 <= k < i ==> #[trigger] residues@[k] < P::MODULI@[k],
            decreases LIMBS - i,
        {
            let a = self.residues[i];
            let b = rhs.residues[i];
            let m = P::MODULI[i];
            let v = if a >= b {
                proof {
                    lemma_small_mod((a - b) as nat, m as nat);
                }
                a - b
            } else {
                proof {
                    vstd::arithmetic::div_mod::lemma_fundamental_div_mod_converse(
                        a - b,
                        m as int,
                        -1,
                        m - b + a,
                    );
                }
                m - b + a
            };
            residues[i] = v;
            i = i + 1;
        }
        LargeRns { residues, _profile: PhantomData }
    }

    /// Residue-wise product: `(a_i * b_i) mod m_i`.
    pub fn mul_residues(&self, rhs: &Self) -> (r: Self)
        requires
            self.wf(),
            rhs.wf(),
        ensures
            r.wf(),
            forall|i: int|
                0 <= i < LIMBS ==> #[trigger] r.residues_spec()[i] as nat == (self.residues_spec()[i] as nat
                    * rhs.residues_spec()[i] as nat) % (P::MODULI@[i] as nat),
    {
        let mut residues = [0u64; LIMBS];
        let mut i: usize = 0;
        while i < LIMBS
            invariant
                self.wf(),
                rhs.wf(),
                i <= LIMBS,
                residues@.len() == LIMBS,
                forall|k: int|
                    0 <= k < i ==> #[trigger] residues@[k] as nat == (self.residues@[k] as nat
                        * rhs.residues@[k] as nat) % (P::MODULI@[k] as nat),
                forall|k: int| 0 <= k < i ==> #[trigger] residues@[k] < P::MODULI@[k],
            decreases LIMBS - i,
        {
            let a = self.residues[i] as u128;
            let b = rhs.residues[i] as u128;
            let m = P::MODULI[i] as u128;
            proof {
                assert(a * b <= 0xffff_ffff_ffff_ffff * 0xffff_ffff_ffff_ffff) by (nonlinear_arith)
                    requires
                        a <= 0xffff_ffff_ffff_ffff,
                        b <= 0xffff_ffff_ffff_ffff,
                ;
                assert(P::MODULI@[i as int] >= 2);
                lemma_mod_bound((a * b) as int, m as int);
            }
            residues[i] = ((a * b) % m) as u64;
            i = i + 1;
        }
        LargeRns { residues, _profile: PhantomData }
    }

    /// Residue-wise negation: `(-a_i) mod m_i`.
    pub fn neg_residues(&self) -> (r: Self)
        requires
            self.wf(),
        ensures
            r.wf(),
            forall|i: int|
                0 <= i < LIMBS ==> #[trigger] r.residues_spec()[i] as int == (0 - self.residues_spec()[i])
                    % (P::MODULI@[i] as int),
    {
        let mut residues = [0u64; LIMBS];
        let mut i: usize = 0;
        while i < LIMBS
            invariant
                self.wf(),
                i <= LIMBS,
                residues@.len() == LIMBS,
                forall|k: int|
                    0 <= k < i ==> #[trigger] residues@[k] as int == (0 - self.residues@[k]) % (
                    P::MODULI@[k] as int),
                forall|k: int| 0 <= k < i ==> #[trigger] residues@[k] < P::MODULI@[k],
            decreases LIMBS - i,
        {
            let a = self.residues[i];
            let m = P::MODULI[i];
            let v = if a == 0 {
                proof {
                    lemma_small_mod(0, m as nat);
                }
                0
            } else {
                proof {
                    vstd::arithmetic::div_mod::lemma_fundamental_div_mod_converse(0 - a, m as int, -1, m - a);
                }
                m - a
            };
            residues[i] = v;
            i = i + 1;
        }
        LargeRns { residues, _profile: PhantomData }
    }
}


impl<P: LargeRnsProfile<LIMBS>, const LIMBS: usize> LargeRns<P, LIMBS> {
    /// The element `value mod M`: the residues of `value` modulo each `m_i`.
    pub fn from_canonical<const N: usize>(value: &BigUint<N>) -> (r: Self)
        requires
            Self::profile_ok(),
        ensures
            r.wf(),
            forall|i: int| 0 <= i < LIMBS ==> #[trigger] r.residues_spec()[i] as nat == value.value()
                % (P::MODULI@[i] as nat),
    {
        let mut residues = [0u64; LIMBS];
        let mut i: usize = 0;
        while i < LIMBS
            invariant
                Self::profile_ok(),
                i <= LIMBS,
                residues@.len() == LIMBS,
                forall|k: int| 0 <= k < i ==> #[trigger] residues@[k] as nat == value.value() % (P::MODULI@[k] as nat),
                forall|k: int| 0 <= k < i ==> #[trigger] residues@[k] < P::MODULI@[k],
            decreases LIMBS - i,
        {
            let m = P::MODULI[i];
            proof {
                assert(P::MODULI@[i as int] >= 2);
            }
            let (q, rem) = value.div_rem_small(m);
            proof {
                vstd::arithmetic::div_mod::lemma_fundamental_div_mod_converse(
                    value.value() as int,
                    m as int,
                    q.value() as int,
                    rem as int,
                );
            }
            residues[i] = rem;
            i = i + 1;
        }
        LargeRns { residues, _profile: PhantomData }
    }

    /// The canonical value in `[0, M)`.
    pub fn to_canonical(&self) -> (r: BigUint<LIMBS>)
        requires
            self.wf(),
        ensures
            r.value() < Self::modulus_spec(),
            forall|i: int| 0 <= i < LIMBS ==> r.value() % (P::MODULI@[i] as nat) == self.residues_spec()[i],
    {
        self.reconstruct_canonical()
    }
}

impl<P: LargeRnsProfile<LIMBS>, const LIMBS: usize> Clone for LargeRns<P, LIMBS> {
    fn clone(&self) -> (r: Self)
        ensures
            r == *self,
    {
        *self
    }
}

impl<P: LargeRnsProfile<LIMBS>, const LIMBS: usize> Copy for LargeRns<P, LIMBS> {

}

impl<P: LargeRnsProfile<LIMBS>, const LIMBS: usize> LargeRns<P, LIMBS> {
    /// `v` is below `M` and has the element's residues.
    pub closed spec fn represented_by(&self, v: nat) -> bool {
        v < Self::modulus_spec() && forall|i: int|
            0 <= i < LIMBS ==> #[trigger] (v % (P::MODULI@[i] as nat)) == self.residues@[i]
    }

    /// The canonical value: the number below `M` with the element's residues.
    pub closed spec fn value(&self) -> nat {
        choose|v: nat| #[trigger] self.represented_by(v)
    }

    /// The residues of `v` modulo each modulus.
    pub open spec fn residues_of(v: nat) -> Seq<u64> {
        Seq::new(LIMBS as nat, |i: int| (v % (P::MODULI@[i] as nat)) as u64)
    }

    /// The element whose residues are those of `v`.
    pub closed spec fn from_value(v: nat) -> Self {
        LargeRns { residues: array_from_limbs::<LIMBS>(Self::residues_of(v), LIMBS as nat), _profile: PhantomData }
    }

    /// The moduli form a basis whose product is `M`.
    proof fn lemma_basis()
        requires
            Self::profile_ok(),
        ensures
            LIMBS > 0,
            P::MODULI@.len() == LIMBS,
            Self::modulus_spec() == prefix_product(P::MODULI@, LIMBS as int),
            Self::modulus_spec() >= 2,
            forall|i: int| 0 <= i < LIMBS ==> (Self::modulus_spec() as int) % (#[trigger] P::MODULI@[i] as int) == 0,
    {
        let p = P::MODULI@;
        assert forall|i: int| 0 <= i < LIMBS implies (Self::modulus_spec() as int) % (#[trigger] p[i] as int) == 0 by {
            lemma_modulus_multiple(p, i);
        }
        assert(p[0] > 1);
        crate::arith::rns::lemma_prefix_product_mono(p, 1, LIMBS as int);
        assert(prefix_product(p, 0) == 1);
        assert(prefix_product(p, 1) == prefix_product(p, 0) * (p[0] as nat));
        assert(prefix_product(p, 1) >= 2);
    }

    /// A valid element's value lies below `M` and has the element's residues.
    proof fn lemma_value(a: Self)
        requires
            a.wf(),
        ensures
            a.value() < Self::modulus_spec(),
            forall|i: int| 0 <= i < LIMBS ==> #[trigger] (a.value() % (P::MODULI@[i] as nat)) == a.residues@[i],
    {
        Self::lemma_basis();
        let x = lemma_crt_exists(P::MODULI@, a.residues@, LIMBS as int);
        assert(a.represented_by(x));
    }

    /// A number below `M` with an element's residues is its value.
    proof fn lemma_value_from_residues(a: Self, v: nat)
        requires
            a.wf(),
            v < Self::modulus_spec(),
            forall|i: int| 0 <= i < LIMBS ==> #[trigger] (v % (P::MODULI@[i] as nat)) == a.residues@[i],
        ensures
            a.value() == v,
    {
        Self::lemma_value(a);
        Self::lemma_basis();
        lemma_crt_unique(P::MODULI@, a.value(), v);
    }

    /// `from_value(v)` is valid with value `v`.
    proof fn lemma_from_value(v: nat)
        requires
            Self::profile_ok(),
            v < Self::modulus_spec(),
        ensures
            Self::from_value(v).wf(),
            Self::from_value(v).value() == v,
            forall|i: int| 0 <= i < LIMBS ==> #[trigger] Self::from_value(v).residues@[i] == v % (P::MODULI@[i] as nat),
    {
        Self::lemma_basis();
        let r = Self::from_value(v);
        lemma_array_from_limbs::<LIMBS>(Self::residues_of(v), LIMBS as nat);
        assert forall|i: int| 0 <= i < LIMBS implies #[trigger] r.residues@[i] == v % (P::MODULI@[i] as nat)
            && r.residues@[i] < P::MODULI@[i] by {
            assert(P::MODULI@[i] >= 2);
            lemma_mod_bound(v as int, P::MODULI@[i] as int);
            assert(r.residues@[i] == Self::residues_of(v)[i]);
        }
        Self::lemma_value_from_residues(r, v);
    }

    /// Valid elements with equal values are equal.
    proof fn lemma_eq_by_value(a: Self, b: Self)
        requires
            a.wf(),
            b.wf(),
            a.value() == b.value(),
        ensures
            a == b,
    {
        Self::lemma_value(a);
        Self::lemma_value(b);
        assert forall|i: int| 0 <= i < LIMBS implies a.residues@[i] == b.residues@[i] by {
            assert(a.value() % (P::MODULI@[i] as nat) == a.residues@[i]);
            assert(b.value() % (P::MODULI@[i] as nat) == b.residues@[i]);
        }
        assert(a.residues =~= b.residues);
    }

    /// The ring operations on values: results are valid, with the values of
    /// arithmetic modulo `M`.
    proof fn lemma_ops(a: Self, b: Self)
        requires
            a.wf(),
            b.wf(),
        ensures
            <Self as Ring>::add_spec(a, b).wf(),
            <Self as Ring>::sub_spec(a, b).wf(),
            <Self as Ring>::mul_spec(a, b).wf(),
            <Self as Ring>::neg_spec(a).wf(),
            <Self as Ring>::add_spec(a, b).value() == (a.value() + b.value()) % Self::modulus_spec(),
            <Self as Ring>::sub_spec(a, b).value() as int == (a.value() - b.value()) % (Self::modulus_spec() as int),
            <Self as Ring>::mul_spec(a, b).value() == (a.value() * b.value()) % Self::modulus_spec(),
            <Self as Ring>::neg_spec(a).value() as int == (Self::modulus_spec() - a.value()) % (Self::modulus_spec() as int),
    {
        Self::lemma_basis();
        Self::lemma_value(a);
        Self::lemma_value(b);
        let m = Self::modulus_spec() as int;
        lemma_mod_ring_laws(a.value() as int, b.value() as int, 0, m);
        Self::lemma_from_value((a.value() + b.value()) % Self::modulus_spec());
        Self::lemma_from_value(((a.value() - b.value()) % m) as nat);
        Self::lemma_from_value((a.value() * b.value()) % Self::modulus_spec());
        Self::lemma_from_value(((m - a.value()) % m) as nat);
    }

    /// The identities: `0` and `1` are valid with values `0` and `1`.
    proof fn lemma_identities()
        requires
            Self::profile_ok(),
        ensures
            <Self as Ring>::zero_spec().wf(),
            <Self as Ring>::one_spec().wf(),
            <Self as Ring>::zero_spec().value() == 0,
            <Self as Ring>::one_spec().value() == 1,
    {
        Self::lemma_basis();
        Self::lemma_from_value(0);
        Self::lemma_from_value(1);
    }

    /// An element whose residues are those of `x` has value `x mod M`.
    proof fn lemma_value_of_residues(r: Self, x: int)
        requires
            r.wf(),
            forall|i: int| 0 <= i < LIMBS ==> #[trigger] r.residues_spec()[i] as int == x % (P::MODULI@[i] as int),
        ensures
            r.value() as int == x % (Self::modulus_spec() as int),
    {
        Self::lemma_basis();
        let m = Self::modulus_spec() as int;
        lemma_mod_bound(x, m);
        let v = (x % m) as nat;
        assert forall|i: int| 0 <= i < LIMBS implies #[trigger] (v % (P::MODULI@[i] as nat)) == r.residues@[i] by {
            assert(P::MODULI@[i] >= 2);
            assert(r.residues_spec()[i] == r.residues@[i]);
            lemma_mod_divisor(x, P::MODULI@[i] as int, m);
        }
        Self::lemma_value_from_residues(r, v);
    }
}

impl<P: LargeRnsProfile<LIMBS>, const LIMBS: usize> Ring for LargeRns<P, LIMBS> {
    open spec fn params_ok() -> bool {
        Self::profile_ok()
    }

    /// A valid profile, and every residue below its modulus.
    closed spec fn wf(self) -> bool {
        &&& Self::profile_ok()
        &&& forall|i: int| 0 <= i < LIMBS ==> self.residues@[i] < P::MODULI@[i]
    }

    closed spec fn zero_spec() -> Self {
        Self::from_value(0)
    }

    closed spec fn one_spec() -> Self {
        Self::from_value(1)
    }

    closed spec fn add_spec(a: Self, b: Self) -> Self {
        Self::from_value((a.value() + b.value()) % Self::modulus_spec())
    }

    closed spec fn sub_spec(a: Self, b: Self) -> Self {
        Self::from_value(((a.value() - b.value()) % (Self::modulus_spec() as int)) as nat)
    }

    closed spec fn mul_spec(a: Self, b: Self) -> Self {
        Self::from_value((a.value() * b.value()) % Self::modulus_spec())
    }

    closed spec fn neg_spec(a: Self) -> Self {
        Self::from_value(((Self::modulus_spec() - a.value()) % (Self::modulus_spec() as int)) as nat)
    }

    proof fn lemma_wf_params(a: Self) {
    }

    proof fn lemma_identities_wf() {
        Self::lemma_identities();
    }

    proof fn lemma_closed(a: Self, b: Self) {
        Self::lemma_ops(a, b);
    }

    proof fn lemma_add_laws(a: Self, b: Self, c: Self) {
        Self::lemma_basis();
        Self::lemma_identities();
        let m = Self::modulus_spec() as int;
        Self::lemma_value(a);
        Self::lemma_value(b);
        Self::lemma_value(c);
        lemma_mod_ring_laws(a.value() as int, b.value() as int, c.value() as int, m);
        Self::lemma_ops(a, b);
        Self::lemma_ops(b, a);
        Self::lemma_ops(b, c);
        Self::lemma_ops(Self::add_spec(a, b), c);
        Self::lemma_ops(a, Self::add_spec(b, c));
        Self::lemma_ops(a, Self::zero_spec());
        Self::lemma_ops(a, Self::neg_spec(a));
        Self::lemma_ops(a, Self::neg_spec(b));
        Self::lemma_ops(b, b);
        Self::lemma_eq_by_value(Self::add_spec(a, b), Self::add_spec(b, a));
        Self::lemma_eq_by_value(
            Self::add_spec(Self::add_spec(a, b), c),
            Self::add_spec(a, Self::add_spec(b, c)),
        );
        Self::lemma_eq_by_value(Self::add_spec(a, Self::zero_spec()), a);
        Self::lemma_eq_by_value(Self::add_spec(a, Self::neg_spec(a)), Self::zero_spec());
        Self::lemma_eq_by_value(Self::sub_spec(a, b), Self::add_spec(a, Self::neg_spec(b)));
    }

    proof fn lemma_mul_laws(a: Self, b: Self, c: Self) {
        Self::lemma_basis();
        Self::lemma_identities();
        let m = Self::modulus_spec() as int;
        Self::lemma_value(a);
        Self::lemma_value(b);
        Self::lemma_value(c);
        lemma_mod_ring_laws(a.value() as int, b.value() as int, c.value() as int, m);
        Self::lemma_ops(a, b);
        Self::lemma_ops(b, a);
        Self::lemma_ops(b, c);
        Self::lemma_ops(a, c);
        Self::lemma_ops(Self::mul_spec(a, b), c);
        Self::lemma_ops(a, Self::mul_spec(b, c));
        Self::lemma_ops(a, Self::one_spec());
        Self::lemma_ops(a, Self::zero_spec());
        Self::lemma_ops(a, Self::add_spec(b, c));
        Self::lemma_ops(Self::mul_spec(a, b), Self::mul_spec(a, c));
        Self::lemma_eq_by_value(Self::mul_spec(a, b), Self::mul_spec(b, a));
        Self::lemma_eq_by_value(
            Self::mul_spec(Self::mul_spec(a, b), c),
            Self::mul_spec(a, Self::mul_spec(b, c)),
        );
        Self::lemma_eq_by_value(Self::mul_spec(a, Self::one_spec()), a);
        Self::lemma_eq_by_value(Self::mul_spec(a, Self::zero_spec()), Self::zero_spec());
        Self::lemma_eq_by_value(
            Self::mul_spec(a, Self::add_spec(b, c)),
            Self::add_spec(Self::mul_spec(a, b), Self::mul_spec(a, c)),
        );
    }

    fn zero() -> (r: Self) {
        let r = Self::from_small_u64(0);
        proof {
            Self::lemma_identities();
            Self::lemma_value_of_residues(r, 0);
            Self::lemma_basis();
            lemma_small_mod(0, Self::modulus_spec());
            Self::lemma_eq_by_value(r, Self::zero_spec());
        }
        r
    }

    fn one() -> (r: Self) {
        let r = Self::from_small_u64(1);
        proof {
            Self::lemma_identities();
            Self::lemma_value_of_residues(r, 1);
            Self::lemma_basis();
            lemma_small_mod(1, Self::modulus_spec());
            Self::lemma_eq_by_value(r, Self::one_spec());
        }
        r
    }

    fn is_zero(&self) -> (b: bool) {
        let z = Self::zero();
        self.residues_equal(&z)
    }

    fn is_one(&self) -> (b: bool) {
        let o = Self::one();
        self.residues_equal(&o)
    }

    fn add_ref(a: &Self, b: &Self) -> (r: Self) {
        let r = a.add_residues(b);
        proof {
            Self::lemma_value(*a);
            Self::lemma_value(*b);
            Self::lemma_basis();
            assert forall|i: int| 0 <= i < LIMBS implies #[trigger] r.residues_spec()[i] as int == (a.value() + b.value()) as int
                % (P::MODULI@[i] as int) by {
                assert(P::MODULI@[i] >= 2);
                assert(a.residues_spec()[i] == a.value() % (P::MODULI@[i] as nat));
                assert(b.residues_spec()[i] == b.value() % (P::MODULI@[i] as nat));
                lemma_add_mod_noop(a.value() as int, b.value() as int, P::MODULI@[i] as int);
            }
            Self::lemma_value_of_residues(r, (a.value() + b.value()) as int);
            Self::lemma_ops(*a, *b);
            Self::lemma_eq_by_value(r, Self::add_spec(*a, *b));
        }
        r
    }

    fn sub_ref(a: &Self, b: &Self) -> (r: Self) {
        let r = a.sub_residues(b);
        proof {
            Self::lemma_value(*a);
            Self::lemma_value(*b);
            Self::lemma_basis();
            assert forall|i: int| 0 <= i < LIMBS implies #[trigger] r.residues_spec()[i] as int == (a.value() - b.value())
                % (P::MODULI@[i] as int) by {
                assert(P::MODULI@[i] >= 2);
                assert(a.residues_spec()[i] == a.value() % (P::MODULI@[i] as nat));
                assert(b.residues_spec()[i] == b.value() % (P::MODULI@[i] as nat));
                lemma_sub_mod_noop(a.value() as int, b.value() as int, P::MODULI@[i] as int);
            }
            Self::lemma_value_of_residues(r, a.value() - b.value());
            Self::lemma_ops(*a, *b);
            Self::lemma_eq_by_value(r, Self::sub_spec(*a, *b));
        }
        r
    }

    fn mul_ref(a: &Self, b: &Self) -> (r: Self) {
        let r = a.mul_residues(b);
        proof {
            Self::lemma_value(*a);
            Self::lemma_value(*b);
            Self::lemma_basis();
            assert forall|i: int| 0 <= i < LIMBS implies #[trigger] r.residues_spec()[i] as int == (a.value() * b.value()) as int
                % (P::MODULI@[i] as int) by {
                assert(P::MODULI@[i] >= 2);
                assert(a.residues_spec()[i] == a.value() % (P::MODULI@[i] as nat));
                assert(b.residues_spec()[i] == b.value() % (P::MODULI@[i] as nat));
                lemma_mul_mod_noop(a.value() as int, b.value() as int, P::MODULI@[i] as int);
            }
            Self::lemma_value_of_residues(r, (a.value() * b.value()) as int);
            Self::lemma_ops(*a, *b);
            Self::lemma_eq_by_value(r, Self::mul_spec(*a, *b));
        }
        r
    }

    fn neg_ref(a: &Self) -> (r: Self) {
        let r = a.neg_residues();
        proof {
            Self::lemma_value(*a);
            Self::lemma_basis();
            let m = Self::modulus_spec() as int;
            assert forall|i: int| 0 <= i < LIMBS implies #[trigger] r.residues_spec()[i] as int == (m - a.value())
                % (P::MODULI@[i] as int) by {
                let mi = P::MODULI@[i] as int;
                assert(mi >= 2);
                assert(a.residues_spec()[i] == a.value() % (P::MODULI@[i] as nat));
                lemma_mod_divisor(m - a.value(), mi, m);
                lemma_fundamental_div_mod(m, mi);
                lemma_sub_mod_noop(0, a.value() as int, mi);
                lemma_sub_mod_noop(m, a.value() as int, mi);
                lemma_small_mod(0, mi as nat);
            }
            Self::lemma_value_of_residues(r, m - a.value());
            Self::lemma_ops(*a, *a);
            Self::lemma_eq_by_value(r, Self::neg_spec(*a));
        }
        r
    }
}

impl<P: LargeRnsProfile<LIMBS>, const LIMBS: usize> LargeRns<P, LIMBS> {
    /// Whether two valid elements have the same residues.
    fn residues_equal(&self, other: &Self) -> (b: bool)
        requires
            self.wf(),
            other.wf(),
        ensures
            b == (*self == *other),
    {
        let mut i: usize = 0;
        while i < LIMBS
            invariant
                i <= LIMBS,
                forall|k: int| 0 <= k < i ==> self.residues@[k] == other.residues@[k],
            decreases LIMBS - i,
        {
            if self.residues[i] != other.residues[i] {
                return false;
            }
            i = i + 1;
        }
        proof {
            assert(self.residues =~= other.residues);
        }
        true
    }
}

impl<P: LargeRnsProfile<LIMBS>, const LIMBS: usize> LargeCanonicalRing for LargeRns<P, LIMBS> {
    type Canonical = BigUint<LIMBS>;

    open spec fn canonical_modulus() -> nat {
        Self::modulus_spec()
    }

    open spec fn canonical_value(self) -> nat {
        self.value()
    }

    proof fn lemma_canonical(a: Self, b: Self) {
        Self::lemma_basis();
        Self::lemma_value(a);
        Self::lemma_ops(a, b);
        if a.value() == b.value() {
            Self::lemma_eq_by_value(a, b);
        }
    }

    proof fn lemma_modulus_fits() {
        lemma_limbs_value_bound(P::MODULUS@);
    }

    proof fn lemma_canonical_identities() {
        Self::lemma_basis();
        Self::lemma_identities();
    }

    fn modulus_canonical() -> (m: BigUint<LIMBS>) {
        proof {
            lemma_limbs_value_bound(P::MODULUS@);
            lemma_small_mod(Self::modulus_spec(), BigUint::<LIMBS>::bound());
        }
        BigUint { limbs: P::MODULUS }
    }

    fn from_small_u64(v: u64) -> (r: Self) {
        let r = Self::from_small_u64(v);
        proof {
            Self::lemma_value_of_residues(r, v as int);
        }
        r
    }

    fn from_canonical(c: &BigUint<LIMBS>) -> (r: Self) {
        let r = Self::from_canonical::<LIMBS>(c);
        proof {
            Self::lemma_value_of_residues(r, c.value() as int);
        }
        r
    }

    fn to_canonical(&self) -> (c: BigUint<LIMBS>) {
        let c = self.reconstruct_canonical();
        proof {
            assert(c.canonical_nat() == c.value());
            assert forall|i: int| 0 <= i < LIMBS implies #[trigger] (c.value() % (P::MODULI@[i] as nat)) == self.residues@[i] by {
                assert(self.residues_spec()[i] == self.residues@[i]);
            }
            Self::lemma_value_from_residues(*self, c.value());
            assert(self.canonical_value() == self.value());
            assert(c.canonical_nat() == self.canonical_value());
        }
        c
    }

    fn try_to_u64(&self) -> (r: Option<u64>) {
        proof {
            Self::lemma_basis();
        }
        LargeCanonicalRing::to_canonical(self).try_to_u64()
    }

    fn try_to_u128(&self) -> (r: Option<u128>) {
        LargeCanonicalRing::to_canonical(self).try_to_u128()
    }
}

impl<P: LargeRnsProfile<LIMBS>, const LIMBS: usize> core::ops::Add for LargeRns<P, LIMBS> {
    type Output = Self;

    fn add(self, rhs: Self) -> (r: Self)
        ensures
            r == <Self as Ring>::add_spec(self, rhs),
            r.wf(),
    {
        <Self as Ring>::add_ref(&self, &rhs)
    }
}

impl<P: LargeRnsProfile<LIMBS>, const LIMBS: usize> vstd::std_specs::ops::AddSpecImpl for LargeRns<P, LIMBS> {
    open spec fn obeys_add_spec() -> bool {
        false
    }

    open spec fn add_req(self, rhs: Self) -> bool {
        self.wf() && rhs.wf()
    }

    open spec fn add_spec(self, rhs: Self) -> Self {
        <Self as Ring>::add_spec(self, rhs)
    }
}

impl<P: LargeRnsProfile<LIMBS>, const LIMBS: usize> core::ops::Sub for LargeRns<P, LIMBS> {
    type Output = Self;

    fn sub(self, rhs: Self) -> (r: Self)
        ensures
            r == <Self as Ring>::sub_spec(self, rhs),
            r.wf(),
    {
        <Self as Ring>::sub_ref(&self, &rhs)
    }
}

impl<P: LargeRnsProfile<LIMBS>, const LIMBS: usize> vstd::std_specs::ops::SubSpecImpl for LargeRns<P, LIMBS> {
    open spec fn obeys_sub_spec() -> bool {
        false
    }

    open spec fn sub_req(self, rhs: Self) -> bool {
        self.wf() && rhs.wf()
    }

    open spec fn sub_spec(self, rhs: Self) -> Self {
        <Self as Ring>::sub_spec(self, rhs)
    }
}

impl<P: LargeRnsProfile<LIMBS>, const LIMBS: usize> core::ops::Mul for LargeRns<P, LIMBS> {
    type Output = Self;

    fn mul(self, rhs: Self) -> (r: Self)
        ensures
            r == <Self as Ring>::mul_spec(self, rhs),
            r.wf(),
    {
        <Self as Ring>::mul_ref(&self, &rhs)
    }
}

impl<P: LargeRnsProfile<LIMBS>, const LIMBS: usize> vstd::std_specs::ops::MulSpecImpl for LargeRns<P, LIMBS> {
    open spec fn obeys_mul_spec() -> bool {
        false
    }

    open spec fn mul_req(self, rhs: Self) -> bool {
        self.wf() && rhs.wf()
    }

    open spec fn mul_spec(self, rhs: Self) -> Self {
        <Self as Ring>::mul_spec(self, rhs)
    }
}

impl<P: LargeRnsProfile<LIMBS>, const LIMBS: usize> core::ops::Neg for LargeRns<P, LIMBS> {
    type Output = Self;

    fn neg(self) -> (r: Self)
        ensures
            r == <Self as Ring>::neg_spec(self),
            r.wf(),
    {
        <Self as Ring>::neg_ref(&self)
    }
}

impl<P: LargeRnsProfile<LIMBS>, const LIMBS: usize> vstd::std_specs::ops::NegSpecImpl for LargeRns<P, LIMBS> {
    open spec fn obeys_neg_spec() -> bool {
        false
    }

    open spec fn neg_req(self) -> bool {
        self.wf()
    }

    open spec fn neg_spec(self) -> Self {
        <Self as Ring>::neg_spec(self)
    }
}

impl<P: LargeRnsProfile<LIMBS>, const LIMBS: usize> CanonicalSerialize for LargeRns<P, LIMBS> {
    /// The canonical value in `8 * LIMBS` little-endian bytes.
    open spec fn encoding(&self) -> Seq<u8> {
        le_encode(self.value(), 8 * LIMBS as nat)
    }

    open spec fn can_encode(&self) -> bool {
        self.wf() && 8 * LIMBS <= usize::MAX
    }

    fn serialized_size(&self) -> (r: usize) {
        proof {
            lemma_le_encode(self.value(), 8 * LIMBS as nat);
        }
        8 * LIMBS
    }

    fn serialize_into(&self, buf: &mut Vec<u8>) -> (r: Result<(), SerializationError>) {
        let c = LargeCanonicalRing::to_canonical(self);
        append_limbs_le(&c.limbs, buf);
        Ok(())
    }
}

impl<P: LargeRnsProfile<LIMBS>, const LIMBS: usize> CanonicalDeserialize for LargeRns<P, LIMBS> {
    /// `data` starts with `8 * LIMBS` bytes whose value is below `M` and is the value
    /// of `v`.
    open spec fn decodes(data: Seq<u8>, v: Self, n: nat) -> bool {
        &&& n == 8 * LIMBS
        &&& 8 * LIMBS <= usize::MAX
        &&& n <= data.len()
        &&& le_value(data.subrange(0, n as int)) < Self::modulus_spec()
        &&& v.wf()
        &&& v.value() == le_value(data.subrange(0, n as int))
    }

    open spec fn is_short(data: Seq<u8>) -> bool {
        data.len() < 8 * LIMBS
    }

    open spec fn decode_ready() -> bool {
        Self::profile_ok() && 8 * LIMBS <= usize::MAX
    }

    proof fn lemma_decodes_unique(data: Seq<u8>, v1: Self, n1: nat, v2: Self, n2: nat) {
    }

    proof fn lemma_decodes_not_short(data: Seq<u8>, v: Self, n: nat) {
    }

    proof fn lemma_decodes_prefix(data: Seq<u8>, v: Self, n: nat, rest: Seq<u8>) {
        let head = data.subrange(0, n as int);
        assert((head + rest).subrange(0, n as int) =~= head);
        lemma_le_encode_value(head);
    }

    proof fn lemma_round_trip(v: Self, rest: Seq<u8>) {
        let n = 8 * LIMBS as nat;
        let e = le_encode(v.value(), n);
        lemma_le_encode(v.value(), n);
        assert((e + rest).subrange(0, n as int) =~= e);
        lemma_byte_pow_limbs(LIMBS as nat);
        Self::lemma_value(v);
        lemma_limbs_value_bound(P::MODULUS@);
        lemma_small_mod(v.value(), byte_pow(n));
    }

    fn deserialize(data: &[u8]) -> (r: Result<(Self, usize), SerializationError>) {
        let n = 8 * LIMBS;
        if data.len() < n {
            proof {
                assert(Self::is_short(data@));
            }
            return Err(SerializationError::UnexpectedEnd);
        }
        proof {
            assert(!Self::is_short(data@));
        }
        let value = read_limbs_le::<LIMBS>(data);
        let m = <Self as LargeCanonicalRing>::modulus_canonical();
        proof {
            lemma_limbs_value_bound(P::MODULUS@);
            lemma_small_mod(Self::modulus_spec(), BigUint::<LIMBS>::bound());
            assert(m.canonical_nat() == m.value());
            assert(m.value() == Self::modulus_spec());
        }
        let (_, below) = value.sub_with_borrow(&m);
        if !below {
            return Err(SerializationError::InvalidData("value is not below the modulus".to_owned()));
        }
        let v = <Self as LargeCanonicalRing>::from_canonical(&value);
        proof {
            lemma_limbs_value_bound(P::MODULUS@);
            lemma_small_mod(Self::modulus_spec(), BigUint::<LIMBS>::bound());
            lemma_small_mod(value.value(), Self::modulus_spec());
        }
        Ok((v, n))
    }
}

/// The value of three little-endian limbs.
proof fn lemma_limbs_value3(s: Seq<u64>)
    requires
        s.len() == 3,
    ensures
        limbs_value(s) == s[0] + s[1] * 0x1_0000_0000_0000_0000nat + s[2] * 0x1_0000_0000_0000_0000_0000_0000_0000_0000nat,
{
    reveal_with_fuel(crate::arith::bigint::limb_pow, 3);
    let s2 = s.drop_last();
    let s1 = s2.drop_last();
    let s0 = s1.drop_last();
    assert(s0 =~= Seq::<u64>::empty());
    assert(s1.len() == 1 && s1[0] == s[0] && s1.last() == s[0]);
    assert(s2.len() == 2 && s2.last() == s[1]);
    assert(limbs_value(s0) == 0);
    assert(crate::arith::bigint::limb_pow(0) == 1);
    assert(crate::arith::bigint::limb_pow(1) == 0x1_0000_0000_0000_0000nat);
    assert(limbs_value(s1) == limbs_value(s0) + (s1.last() as nat) * crate::arith::bigint::limb_pow(0));
    assert(limbs_value(s1) == s[0]);
    assert(limbs_value(s2) == s[0] + s[1] * 0x1_0000_0000_0000_0000nat);
}

/// The shipped three-modulus profile is valid: its moduli are pairwise coprime (each
/// Garner constant is an inverse, which gives a Bezout identity), and its prefix
/// products, composite modulus and Garner constants are the stated products and
/// inverses.
pub proof fn lemma_rns3_v0_profile_ok()
    ensures
        LargeRns::<Rns3V0Profile, 3>::profile_ok(),
        LargeRns::<Rns3V0Profile, 3>::modulus_spec() == 0x10_0009_d001_e970_1e0c_b01e_9700_09d0_0001nat,
{
    let p = <Rns3V0Profile as LargeRnsProfile<3>>::MODULI@;
    let pp = <Rns3V0Profile as LargeRnsProfile<3>>::PREFIX_PRODUCTS@;
    let gi = <Rns3V0Profile as LargeRnsProfile<3>>::GARNER_INVERSES@;
    let m0: nat = 0x0000_1000_01d0_0001;
    let m1: nat = 0x0000_1000_03b0_0001;
    let m2: nat = 0x0000_1000_0450_0001;
    assert(p[0] == m0 && p[1] == m1 && p[2] == m2);
    // Bezout identities from the Garner inverses.
    let g10: nat = 0x0000_0800_01e0_888b;
    let g20: nat = 0x0000_0e00_03cc_6669;
    let g21: nat = 0x0000_0800_0241_99a1;
    assert(gi[1]@[0] == g10 && gi[2]@[0] == g20 && gi[2]@[1] == g21);
    assert(g10 * m0 == 8796108785802nat * m1 + 1);
    assert(g20 * m0 == 15393189815912nat * m2 + 1);
    assert(g21 * m1 == 8796125632928nat * m2 + 1);
    crate::arith::rns::lemma_gcd_one_from_bezout(m0, m1, g10 as int, -8796108785802int);
    crate::arith::rns::lemma_gcd_one_from_bezout(m0, m2, g20 as int, -15393189815912int);
    crate::arith::rns::lemma_gcd_one_from_bezout(m1, m2, g21 as int, -8796125632928int);
    assert(valid_basis(p));
    vstd::arithmetic::div_mod::lemma_fundamental_div_mod_converse((g10 * m0) as int, m1 as int, 8796108785802int, 1);
    vstd::arithmetic::div_mod::lemma_fundamental_div_mod_converse((g20 * m0) as int, m2 as int, 15393189815912int, 1);
    vstd::arithmetic::div_mod::lemma_fundamental_div_mod_converse((g21 * m1) as int, m2 as int, 8796125632928int, 1);
    assert forall|i: int, j: int| 0 <= j < i < 3 implies ((#[trigger] gi[i]@[j]) as nat * (p[j] as nat)) % (p[i] as nat) == 1 by {
        if i == 1 {
            assert(j == 0);
        } else {
            assert(i == 2);
        }
    }
    // Prefix products and the composite modulus.
    lemma_limbs_value3(pp[0]@);
    lemma_limbs_value3(pp[1]@);
    lemma_limbs_value3(pp[2]@);
    lemma_limbs_value3(<Rns3V0Profile as LargeRnsProfile<3>>::MODULUS@);
    assert(prefix_product(p, 0) == 1);
    assert(prefix_product(p, 1) == prefix_product(p, 0) * (p[0] as nat));
    assert(prefix_product(p, 1) == m0);
    assert(prefix_product(p, 2) == prefix_product(p, 1) * (p[1] as nat));
    assert(prefix_product(p, 2) == m0 * m1);
    assert(prefix_product(p, 3) == prefix_product(p, 2) * (p[2] as nat));
    assert(prefix_product(p, 3) == m0 * m1 * m2);
    assert(forall|i: int| 0 <= i < 3 ==> limbs_value(#[trigger] pp[i]@) == prefix_product(p, i));
}

impl<P: LargeRnsProfile<LIMBS>, const LIMBS: usize> LargeRns<P, LIMBS> {
    /// The element as a value of the dynamic-basis residue ring over the profile's
    /// moduli.
    pub fn to_composite(&self) -> (r: CompositeRing)
        requires
            self.wf(),
        ensures
            r.wf(),
            r.basis_view()@ == P::MODULI@,
            r.residues_view() == self.residues_spec(),
    {
        let mut primes: Vec<u64> = Vec::new();
        let mut residues: Vec<u64> = Vec::new();
        let mut i: usize = 0;
        while i < LIMBS
            invariant
                i <= LIMBS,
                primes@ =~= P::MODULI@.take(i as int),
                residues@ =~= self.residues@.take(i as int),
            decreases LIMBS - i,
        {
            primes.push(P::MODULI[i]);
            residues.push(self.residues[i]);
            i = i + 1;
        }
        proof {
            assert(primes@ =~= P::MODULI@);
            assert(residues@ =~= self.residues@);
        }
        let basis = Arc::new(RnsBasis::new(primes));
        match CompositeRing::from_residues_with_basis(residues, basis) {
            Ok(v) => v,
            Err(_) => vstd::pervasive::unreached(),
        }
    }

    /// The element with the residues of a dynamic-basis value, whose basis must be
    /// the profile's moduli.
    pub fn try_from_composite(value: &CompositeRing) -> (r: Result<Self, SerializationError>)
        requires
            Self::profile_ok(),
            value.wf(),
        ensures
            r is Ok <==> value.basis_view()@ == P::MODULI@,
            r matches Ok(x) ==> x.wf() && x.residues_spec() == value.residues_view(),
            r matches Err(e) ==> e is InvalidData,
    {
        let moduli = value.basis().moduli();
        if moduli.len() != LIMBS {
            return Err(SerializationError::InvalidData("the basis does not match the profile".to_owned()));
        }
        let mut i: usize = 0;
        while i < LIMBS
            invariant
                i <= LIMBS,
                moduli@.len() == LIMBS,
                moduli@ == value.basis_view()@,
                forall|k: int| 0 <= k < i ==> moduli@[k] == P::MODULI@[k],
            decreases LIMBS - i,
        {
            if moduli[i] != P::MODULI[i] {
                return Err(SerializationError::InvalidData("the basis does not match the profile".to_owned()));
            }
            i = i + 1;
        }
        proof {
            assert(moduli@ =~= P::MODULI@);
        }
        let res = value.residues();
        let mut residues = [0u64; LIMBS];
        let mut j: usize = 0;
        while j < LIMBS
            invariant
                j <= LIMBS,
                res@ == value.residues_view(),
                res@.len() == LIMBS,
                residues@.len() == LIMBS,
                forall|k: int| 0 <= k < j ==> residues@[k] == res@[k],
            decreases LIMBS - j,
        {
            residues[j] = res[j];
            j = j + 1;
        }
        proof {
            assert(residues@ =~= res@);
        }
        Self::try_from_residues(residues)
    }
}

/// The residues determine the value: a number below `M` whose residues are those
/// of `v` is `v mod M`. With the contracts of `from_canonical` and
/// `reconstruct_canonical` this makes reconstruction undo decomposition, and the
/// converse holds residue by residue.
pub proof fn lemma_residues_determine_value<P: LargeRnsProfile<LIMBS>, const LIMBS: usize>(v: nat, r: nat)
    requires
        LargeRns::<P, LIMBS>::profile_ok(),
        r < LargeRns::<P, LIMBS>::modulus_spec(),
        forall|i: int| 0 <= i < LIMBS ==> r % (P::MODULI@[i] as nat) == #[trigger] (v % (P::MODULI@[i] as nat)),
    ensures
        r == v % LargeRns::<P, LIMBS>::modulus_spec(),
{
    let p = P::MODULI@;
    let m = LargeRns::<P, LIMBS>::modulus_spec();
    lemma_modulus_multiple(p, 0);
    lemma_mod_bound(v as int, m as int);
    assert forall|i: int| 0 <= i < p.len() implies #[trigger] (r % (p[i] as nat)) == (v % m) % (p[i] as nat) by {
        assert(p[i] > 1);
        lemma_modulus_multiple(p, i);
        lemma_mod_divisor(v as int, p[i] as int, m as int);
        assert(r % (p[i] as nat) == v % (p[i] as nat));
    }
    lemma_crt_unique(p, r, v % m);
}

} // verus!
