//! Fixed-limb large prime fields and the binary extended Euclidean inverse.
use crate::arith::bigint::{BigUint, lemma_limbs_value_bound, limbs_value};
use crate::arith::large_modulus::{CanonicalValue, LargeCanonicalRing};
use crate::arith::large_zm::{LargeZm, LargeZmProfile};
use crate::arith::ring::Ring;
use crate::arith::rns::{divides, is_prime, lemma_euclid};
use crate::serialize::{CanonicalDeserialize, CanonicalSerialize, SerializationError};
use core::marker::PhantomData;
use vstd::arithmetic::div_mod::{
    lemma_fundamental_div_mod, lemma_mod_bound, lemma_mod_multiples_basic, lemma_mod_multiples_vanish,
    lemma_small_mod,
};
use vstd::prelude::*;

verus! {

/// Compile-time metadata for a fixed-limb large prime field.
pub trait LargePrimeProfile<const LIMBS: usize> {
    /// Modulus in little-endian limb order.
    const MODULUS: [u64; LIMBS];
    /// `R^2 mod q` in little-endian limb order for Montgomery conversion.
    const MONT_R2: [u64; LIMBS];
    /// `-q^{-1} mod 2^64` for Montgomery reduction.
    const MONT_NEG_INV: u64;
    /// `floor(2^(64 * LIMBS) / q)` for canonical Barrett reduction into Montgomery form.
    const BARRETT_MU: [u64; LIMBS];
    /// Largest `s` such that `2^s` divides `q - 1`.
    const TWO_ADICITY: usize;
    /// Primitive `2^TWO_ADICITY`-th root of unity in canonical little-endian limb order.
    const TWO_ADIC_ROOT: [u64; LIMBS];
}

/// BN254 scalar field profile.
pub struct Bn254FrProfile;

impl LargePrimeProfile<4> for Bn254FrProfile {
    const MODULUS: [u64; 4] = [
        0x43e1_f593_f000_0001,
        0x2833_e848_79b9_7091,
        0xb850_45b6_8181_585d,
        0x3064_4e72_e131_a029,
    ];
    const MONT_R2: [u64; 4] = [
        0x1bb8_e645_ae21_6da7,
        0x53fe_3ab1_e35c_59e3,
        0x8c49_833d_53bb_8085,
        0x0216_d0b1_7f4e_44a5,
    ];
    const MONT_NEG_INV: u64 = 0xc2e1_f593_efff_ffff;
    const BARRETT_MU: [u64; 4] = [0x5, 0x0, 0x0, 0x0];
    const TWO_ADICITY: usize = 28;
    const TWO_ADIC_ROOT: [u64; 4] = [
        0x9bd6_1b6e_725b_19f0,
        0x402d_111e_4111_2ed4,
        0x00e0_a7eb_8ef6_2abc,
        0x2a3c_09f0_a58a_7e85,
    ];
}

/// BN254 base field profile.
pub struct Bn254FqProfile;

impl LargePrimeProfile<4> for Bn254FqProfile {
    const MODULUS: [u64; 4] = [
        0x3c20_8c16_d87c_fd47,
        0x9781_6a91_6871_ca8d,
        0xb850_45b6_8181_585d,
        0x3064_4e72_e131_a029,
    ];
    const MONT_R2: [u64; 4] = [
        0xf32c_fc5b_538a_fa89,
        0xb5e7_1911_d445_01fb,
        0x47ab_1eff_0a41_7ff6,
        0x06d8_9f71_cab8_351f,
    ];
    const MONT_NEG_INV: u64 = 0x87d2_0782_e486_6389;
    const BARRETT_MU: [u64; 4] = [0x5, 0x0, 0x0, 0x0];
    const TWO_ADICITY: usize = 1;
    const TWO_ADIC_ROOT: [u64; 4] = [
        0x3c20_8c16_d87c_fd46,
        0x9781_6a91_6871_ca8d,
        0xb850_45b6_8181_585d,
        0x3064_4e72_e131_a029,
    ];
}

/// BLS12-381 scalar field profile.
pub struct Bls12_381FrProfile;

impl LargePrimeProfile<4> for Bls12_381FrProfile {
    const MODULUS: [u64; 4] = [
        0xffff_ffff_0000_0001,
        0x53bd_a402_fffe_5bfe,
        0x3339_d808_09a1_d805,
        0x73ed_a753_299d_7d48,
    ];
    const MONT_R2: [u64; 4] = [
        0xc999_e990_f3f2_9c6d,
        0x2b6c_edcb_8792_5c23,
        0x05d3_1496_7254_398f,
        0x0748_d9d9_9f59_ff11,
    ];
    const MONT_NEG_INV: u64 = 0xffff_fffe_ffff_ffff;
    const BARRETT_MU: [u64; 4] = [0x2, 0x0, 0x0, 0x0];
    const TWO_ADICITY: usize = 32;
    const TWO_ADIC_ROOT: [u64; 4] = [
        0x1b78_8f50_0b91_2f1f,
        0xc402_4ff2_70b3_e094,
        0x0fd5_6dc8_d168_d6c0,
        0x0212_d79e_5b41_6b6f,
    ];
}

/// BLS12-381 base field profile.
pub struct Bls12_381FqProfile;

impl LargePrimeProfile<6> for Bls12_381FqProfile {
    const MODULUS: [u64; 6] = [
        0xb9fe_ffff_ffff_aaab,
        0x1eab_fffe_b153_ffff,
        0x6730_d2a0_f6b0_f624,
        0x6477_4b84_f385_12bf,
        0x4b1b_a7b6_434b_acd7,
        0x1a01_11ea_397f_e69a,
    ];
    const MONT_R2: [u64; 6] = [
        0xf4df_1f34_1c34_1746,
        0x0a76_e6a6_09d1_04f1,
        0x8de5_476c_4c95_b6d5,
        0x67eb_88a9_939d_83c0,
        0x9a79_3e85_b519_952d,
        0x1198_8fe5_92ca_e3aa,
    ];
    const MONT_NEG_INV: u64 = 0x89f3_fffc_fffc_fffd;
    const BARRETT_MU: [u64; 6] = [0x9, 0x0, 0x0, 0x0, 0x0, 0x0];
    const TWO_ADICITY: usize = 1;
    const TWO_ADIC_ROOT: [u64; 6] = [
        0xb9fe_ffff_ffff_aaaa,
        0x1eab_fffe_b153_ffff,
        0x6730_d2a0_f6b0_f624,
        0x6477_4b84_f385_12bf,
        0x4b1b_a7b6_434b_acd7,
        0x1a01_11ea_397f_e69a,
    ];
}

/// `1` is the only common divisor of `u` and `v`.
pub open spec fn no_common_factor(u: nat, v: nat) -> bool {
    forall|d: nat| #[trigger] divides(d, u) && #[trigger] divides(d, v) ==> d == 1
}

/// For an odd prime `M`, `2A = 2B (mod M)` gives `A = B (mod M)`.
proof fn lemma_cancel_two(m: nat, a: nat, b: nat)
    requires
        is_prime(m),
        m > 2,
        (2 * a) % m == (2 * b) % m,
    ensures
        a % m == b % m,
{
    let x = a % m;
    let y = b % m;
    lemma_mod_bound(a as int, m as int);
    lemma_mod_bound(b as int, m as int);
    vstd::arithmetic::div_mod::lemma_mul_mod_noop_right(2, a as int, m as int);
    vstd::arithmetic::div_mod::lemma_mul_mod_noop_right(2, b as int, m as int);
    lemma_fundamental_div_mod((2 * x) as int, m as int);
    lemma_fundamental_div_mod((2 * y) as int, m as int);
    let q1 = (2 * x) as int / (m as int);
    let q2 = (2 * y) as int / (m as int);
    lemma_small_mod(2, m);
    if x > y {
        let d = (x - y) as nat;
        assert(2 * d == (q1 - q2) * m) by (nonlinear_arith)
            requires
                2 * x == m * q1 + (2 * x) as int % (m as int),
                2 * y == m * q2 + (2 * y) as int % (m as int),
                (2 * x) as int % (m as int) == (2 * y) as int % (m as int),
                d == x - y,
        ;
        lemma_mod_multiples_basic(q1 - q2, m as int);
        lemma_euclid(m, 2, d);
        lemma_small_mod(d, m);
    } else if y > x {
        let d = (y - x) as nat;
        assert(2 * d == (q2 - q1) * m) by (nonlinear_arith)
            requires
                2 * x == m * q1 + (2 * x) as int % (m as int),
                2 * y == m * q2 + (2 * y) as int % (m as int),
                (2 * x) as int % (m as int) == (2 * y) as int % (m as int),
                d == y - x,
        ;
        lemma_mod_multiples_basic(q2 - q1, m as int);
        lemma_euclid(m, 2, d);
        lemma_small_mod(d, m);
    }
}

/// `x1 = x1' - x2 (mod M)` with `x1' a = u'` and `x2 a = v` gives `x1 a = u' - v`.
proof fn lemma_sub_congruent(m: nat, a: nat, x1: nat, x1_old: nat, x2: nat, u: nat, v: nat)
    requires
        m > 0,
        u >= v,
        (x1 + x2) % m == x1_old % m,
        (x1_old * a) % m == u % m,
        (x2 * a) % m == v % m,
    ensures
        (x1 * a) % m == (u - v) as nat % m,
{
    let mi = m as int;
    lemma_fundamental_div_mod((x1 + x2) as int, mi);
    lemma_fundamental_div_mod(x1_old as int, mi);
    lemma_fundamental_div_mod((x1_old * a) as int, mi);
    lemma_fundamental_div_mod(u as int, mi);
    lemma_fundamental_div_mod((x2 * a) as int, mi);
    lemma_fundamental_div_mod(v as int, mi);
    let k1 = (x1 + x2) as int / mi - x1_old as int / mi;
    // x1 + x2 = x1_old + m k1
    let k2 = (x1_old * a) as int / mi - u as int / mi;
    let k3 = (x2 * a) as int / mi - v as int / mi;
    assert((x1 + x2) == x1_old + mi * k1) by (nonlinear_arith)
        requires
            (x1 + x2) == mi * ((x1 + x2) as int / mi) + (x1 + x2) as int % mi,
            x1_old == mi * (x1_old as int / mi) + x1_old as int % mi,
            (x1 + x2) as int % mi == x1_old as int % mi,
            k1 == (x1 + x2) as int / mi - x1_old as int / mi,
    ;
    assert(x1_old * a == u + mi * k2) by (nonlinear_arith)
        requires
            x1_old * a == mi * ((x1_old * a) as int / mi) + (x1_old * a) as int % mi,
            u == mi * (u as int / mi) + u as int % mi,
            (x1_old * a) as int % mi == u as int % mi,
            k2 == (x1_old * a) as int / mi - u as int / mi,
    ;
    assert(x2 * a == v + mi * k3) by (nonlinear_arith)
        requires
            x2 * a == mi * ((x2 * a) as int / mi) + (x2 * a) as int % mi,
            v == mi * (v as int / mi) + v as int % mi,
            (x2 * a) as int % mi == v as int % mi,
            k3 == (x2 * a) as int / mi - v as int / mi,
    ;
    let kk = k1 * a + k2 - k3;
    assert(x1 * a == (u - v) + mi * kk) by (nonlinear_arith)
        requires
            x1 + x2 == x1_old + mi * k1,
            x1_old * a == u + mi * k2,
            x2 * a == v + mi * k3,
            kk == k1 * a + k2 - k3,
    ;
    lemma_mod_multiples_vanish(kk, (u - v) as int, mi);
}

/// The modular-ring profile of a prime profile: the same modulus and Barrett
/// constant, with elements kept as canonical residues (so the Montgomery fields are
/// not consulted).
pub struct PrimeZmProfile<P, const LIMBS: usize> {
    _prime: PhantomData<P>,
}

impl<P: LargePrimeProfile<LIMBS>, const LIMBS: usize> LargeZmProfile<LIMBS> for PrimeZmProfile<P, LIMBS> {
    const MODULUS: [u64; LIMBS] = P::MODULUS;
    const MONTGOMERY: bool = false;
    const MONT_ONE: [u64; LIMBS] = P::MONT_R2;
    const MONT_R2: [u64; LIMBS] = P::MONT_R2;
    const MONT_NEG_INV: u64 = P::MONT_NEG_INV;
    const BARRETT_MU: [u64; LIMBS] = P::BARRETT_MU;
}

/// A fixed-limb prime field element: a canonical residue modulo the profile's prime.
pub struct LargePrimeField<P: LargePrimeProfile<LIMBS>, const LIMBS: usize> {
    inner: LargeZm<PrimeZmProfile<P, LIMBS>, LIMBS>,
    _profile: PhantomData<P>,
}

/// BN254 scalar field over the large-prime backend.
pub type Bn254Fr = LargePrimeField<Bn254FrProfile, 4>;
/// BN254 base field over the large-prime backend.
pub type Bn254Fq = LargePrimeField<Bn254FqProfile, 4>;
/// BLS12-381 scalar field over the large-prime backend.
pub type Bls12_381Fr = LargePrimeField<Bls12_381FrProfile, 4>;
/// BLS12-381 base field over the large-prime backend.
pub type Bls12_381Fq = LargePrimeField<Bls12_381FqProfile, 6>;

impl<P: LargePrimeProfile<LIMBS>, const LIMBS: usize> Clone for LargePrimeField<P, LIMBS> {
    fn clone(&self) -> (r: Self)
        ensures
            r == *self,
    {
        *self
    }
}

impl<P: LargePrimeProfile<LIMBS>, const LIMBS: usize> Copy for LargePrimeField<P, LIMBS> {

}

impl<P: LargePrimeProfile<LIMBS>, const LIMBS: usize> LargePrimeField<P, LIMBS> {
    /// The element with the given canonical residue.
    closed spec fn wrap(inner: LargeZm<PrimeZmProfile<P, LIMBS>, LIMBS>) -> Self {
        LargePrimeField { inner, _profile: PhantomData }
    }

    /// The modulus seen through the residue ring is the prime.
    proof fn lemma_same_modulus()
        ensures
            LargeZm::<PrimeZmProfile<P, LIMBS>, LIMBS>::modulus_spec() == Self::modulus_spec(),
    {
    }

    /// The multiplicative inverse of a non-zero element.
    pub fn inv(&self) -> (r: Self)
        requires
            self.wf(),
            *self != <Self as Ring>::zero_spec(),
        ensures
            r.wf(),
            <Self as Ring>::mul_spec(*self, r) == <Self as Ring>::one_spec(),
    {
        let c = LargeCanonicalRing::to_canonical(self);
        proof {
            <Self as LargeCanonicalRing>::lemma_canonical_identities();
            <Self as Ring>::lemma_identities_wf();
            <Self as LargeCanonicalRing>::lemma_canonical(*self, <Self as Ring>::zero_spec());
            assert(c.canonical_nat() == c.value());
            Self::lemma_same_modulus();
        }
        let rc = Self::invert_canonical(&c);
        let r = <Self as LargeCanonicalRing>::from_canonical(&rc);
        proof {
            assert(rc.canonical_nat() == rc.value());
            lemma_small_mod(rc.value(), Self::modulus_spec());
            <Self as LargeCanonicalRing>::lemma_canonical(*self, r);
            <Self as Ring>::lemma_closed(*self, r);
            <Self as LargeCanonicalRing>::lemma_canonical(
                <Self as Ring>::mul_spec(*self, r),
                <Self as Ring>::one_spec(),
            );
        }
        r
    }
}

impl<P: LargePrimeProfile<LIMBS>, const LIMBS: usize> Ring for LargePrimeField<P, LIMBS> {
    open spec fn params_ok() -> bool {
        LargeZm::<PrimeZmProfile<P, LIMBS>, LIMBS>::profile_ok() && Self::prime_profile_ok()
    }

    closed spec fn wf(self) -> bool {
        Self::params_ok() && self.inner.wf()
    }

    closed spec fn zero_spec() -> Self {
        Self::wrap(LargeZm::<PrimeZmProfile<P, LIMBS>, LIMBS>::zero_spec())
    }

    closed spec fn one_spec() -> Self {
        Self::wrap(LargeZm::<PrimeZmProfile<P, LIMBS>, LIMBS>::one_spec())
    }

    closed spec fn add_spec(a: Self, b: Self) -> Self {
        Self::wrap(LargeZm::<PrimeZmProfile<P, LIMBS>, LIMBS>::add_spec(a.inner, b.inner))
    }

    closed spec fn sub_spec(a: Self, b: Self) -> Self {
        Self::wrap(LargeZm::<PrimeZmProfile<P, LIMBS>, LIMBS>::sub_spec(a.inner, b.inner))
    }

    closed spec fn mul_spec(a: Self, b: Self) -> Self {
        Self::wrap(LargeZm::<PrimeZmProfile<P, LIMBS>, LIMBS>::mul_spec(a.inner, b.inner))
    }

    closed spec fn neg_spec(a: Self) -> Self {
        Self::wrap(LargeZm::<PrimeZmProfile<P, LIMBS>, LIMBS>::neg_spec(a.inner))
    }

    proof fn lemma_wf_params(a: Self) {
    }

    proof fn lemma_identities_wf() {
        LargeZm::<PrimeZmProfile<P, LIMBS>, LIMBS>::lemma_identities_wf();
    }

    proof fn lemma_closed(a: Self, b: Self) {
        LargeZm::<PrimeZmProfile<P, LIMBS>, LIMBS>::lemma_closed(a.inner, b.inner);
    }

    proof fn lemma_add_laws(a: Self, b: Self, c: Self) {
        LargeZm::<PrimeZmProfile<P, LIMBS>, LIMBS>::lemma_add_laws(a.inner, b.inner, c.inner);
    }

    proof fn lemma_mul_laws(a: Self, b: Self, c: Self) {
        LargeZm::<PrimeZmProfile<P, LIMBS>, LIMBS>::lemma_mul_laws(a.inner, b.inner, c.inner);
    }

    fn zero() -> (r: Self) {
        LargePrimeField { inner: LargeZm::<PrimeZmProfile<P, LIMBS>, LIMBS>::zero(), _profile: PhantomData }
    }

    fn one() -> (r: Self) {
        LargePrimeField { inner: <LargeZm<PrimeZmProfile<P, LIMBS>, LIMBS> as Ring>::one(), _profile: PhantomData }
    }

    fn is_zero(&self) -> (b: bool) {
        self.inner.is_zero()
    }

    fn is_one(&self) -> (b: bool) {
        self.inner.is_one()
    }

    fn add_ref(a: &Self, b: &Self) -> (r: Self) {
        LargePrimeField {
            inner: LargeZm::<PrimeZmProfile<P, LIMBS>, LIMBS>::add_ref(&a.inner, &b.inner),
            _profile: PhantomData,
        }
    }

    fn sub_ref(a: &Self, b: &Self) -> (r: Self) {
        LargePrimeField {
            inner: LargeZm::<PrimeZmProfile<P, LIMBS>, LIMBS>::sub_ref(&a.inner, &b.inner),
            _profile: PhantomData,
        }
    }

    fn mul_ref(a: &Self, b: &Self) -> (r: Self) {
        LargePrimeField {
            inner: LargeZm::<PrimeZmProfile<P, LIMBS>, LIMBS>::mul_ref(&a.inner, &b.inner),
            _profile: PhantomData,
        }
    }

    fn neg_ref(a: &Self) -> (r: Self) {
        LargePrimeField { inner: LargeZm::<PrimeZmProfile<P, LIMBS>, LIMBS>::neg_ref(&a.inner), _profile: PhantomData }
    }
}

impl<P: LargePrimeProfile<LIMBS>, const LIMBS: usize> LargeCanonicalRing for LargePrimeField<P, LIMBS> {
    type Canonical = BigUint<LIMBS>;

    open spec fn canonical_modulus() -> nat {
        Self::modulus_spec()
    }

    closed spec fn canonical_value(self) -> nat {
        self.inner.canonical_value()
    }

    proof fn lemma_canonical(a: Self, b: Self) {
        LargeZm::<PrimeZmProfile<P, LIMBS>, LIMBS>::lemma_canonical(a.inner, b.inner);
    }

    proof fn lemma_modulus_fits() {
        <LargeZm<PrimeZmProfile<P, LIMBS>, LIMBS> as LargeCanonicalRing>::lemma_modulus_fits();
    }

    proof fn lemma_canonical_identities() {
        LargeZm::<PrimeZmProfile<P, LIMBS>, LIMBS>::lemma_canonical_identities();
    }

    fn modulus_canonical() -> (m: BigUint<LIMBS>) {
        <LargeZm<PrimeZmProfile<P, LIMBS>, LIMBS> as LargeCanonicalRing>::modulus_canonical()
    }

    fn from_small_u64(v: u64) -> (r: Self) {
        LargePrimeField {
            inner: <LargeZm<PrimeZmProfile<P, LIMBS>, LIMBS> as LargeCanonicalRing>::from_small_u64(v),
            _profile: PhantomData,
        }
    }

    fn from_canonical(c: &BigUint<LIMBS>) -> (r: Self) {
        LargePrimeField {
            inner: <LargeZm<PrimeZmProfile<P, LIMBS>, LIMBS> as LargeCanonicalRing>::from_canonical(c),
            _profile: PhantomData,
        }
    }

    fn to_canonical(&self) -> (c: BigUint<LIMBS>) {
        <LargeZm<PrimeZmProfile<P, LIMBS>, LIMBS> as LargeCanonicalRing>::to_canonical(&self.inner)
    }

    fn try_to_u64(&self) -> (r: Option<u64>) {
        <LargeZm<PrimeZmProfile<P, LIMBS>, LIMBS> as LargeCanonicalRing>::try_to_u64(&self.inner)
    }

    fn try_to_u128(&self) -> (r: Option<u128>) {
        <LargeZm<PrimeZmProfile<P, LIMBS>, LIMBS> as LargeCanonicalRing>::try_to_u128(&self.inner)
    }
}

impl<P: LargePrimeProfile<LIMBS>, const LIMBS: usize> CanonicalSerialize for LargePrimeField<P, LIMBS> {
    /// The canonical residue in `8 * LIMBS` little-endian bytes.
    closed spec fn encoding(&self) -> Seq<u8> {
        self.inner.encoding()
    }

    closed spec fn can_encode(&self) -> bool {
        self.wf() && self.inner.can_encode()
    }

    fn serialized_size(&self) -> (r: usize) {
        self.inner.serialized_size()
    }

    fn serialize_into(&self, buf: &mut Vec<u8>) -> (r: Result<(), SerializationError>) {
        self.inner.serialize_into(buf)
    }
}

impl<P: LargePrimeProfile<LIMBS>, const LIMBS: usize> CanonicalDeserialize for LargePrimeField<P, LIMBS> {
    closed spec fn decodes(data: Seq<u8>, v: Self, n: nat) -> bool {
        Self::prime_profile_ok() && LargeZm::<PrimeZmProfile<P, LIMBS>, LIMBS>::decodes(data, v.inner, n)
    }

    closed spec fn is_short(data: Seq<u8>) -> bool {
        LargeZm::<PrimeZmProfile<P, LIMBS>, LIMBS>::is_short(data)
    }

    open spec fn decode_ready() -> bool {
        Self::params_ok() && 8 * LIMBS <= usize::MAX
    }

    proof fn lemma_decodes_unique(data: Seq<u8>, v1: Self, n1: nat, v2: Self, n2: nat) {
        LargeZm::<PrimeZmProfile<P, LIMBS>, LIMBS>::lemma_decodes_unique(data, v1.inner, n1, v2.inner, n2);
    }

    proof fn lemma_decodes_not_short(data: Seq<u8>, v: Self, n: nat) {
        LargeZm::<PrimeZmProfile<P, LIMBS>, LIMBS>::lemma_decodes_not_short(data, v.inner, n);
    }

    proof fn lemma_decodes_prefix(data: Seq<u8>, v: Self, n: nat, rest: Seq<u8>) {
        LargeZm::<PrimeZmProfile<P, LIMBS>, LIMBS>::lemma_decodes_prefix(data, v.inner, n, rest);
        LargeZm::<PrimeZmProfile<P, LIMBS>, LIMBS>::lemma_wf_params(v.inner);
    }

    proof fn lemma_round_trip(v: Self, rest: Seq<u8>) {
        LargeZm::<PrimeZmProfile<P, LIMBS>, LIMBS>::lemma_round_trip(v.inner, rest);
    }

    fn deserialize(data: &[u8]) -> (r: Result<(Self, usize), SerializationError>) {
        match LargeZm::<PrimeZmProfile<P, LIMBS>, LIMBS>::deserialize(data) {
            Ok((inner, n)) => Ok((LargePrimeField { inner, _profile: PhantomData }, n)),
            Err(e) => {
                proof {
                    assert(Self::is_short(data@) == LargeZm::<PrimeZmProfile<P, LIMBS>, LIMBS>::is_short(data@));
                    assert(e is UnexpectedEnd <==> Self::is_short(data@));
                    assert forall|v: Self, n: nat| !Self::decodes(data@, v, n) by {
                        if Self::decodes(data@, v, n) {
                            assert(LargeZm::<PrimeZmProfile<P, LIMBS>, LIMBS>::decodes(data@, v.inner, n));
                        }
                    }
                }
                Err(e)
            },
        }
    }
}

impl<P: LargePrimeProfile<LIMBS>, const LIMBS: usize> core::ops::Add for LargePrimeField<P, LIMBS> {
    type Output = Self;

    fn add(self, rhs: Self) -> (r: Self)
        ensures
            r == <Self as Ring>::add_spec(self, rhs),
            r.wf(),
    {
        <Self as Ring>::add_ref(&self, &rhs)
    }
}

impl<P: LargePrimeProfile<LIMBS>, const LIMBS: usize> vstd::std_specs::ops::AddSpecImpl for LargePrimeField<P, LIMBS> {
    open spec fn obeys_add_spec() -> bool {
        false
    }

    open spec fn add_req(self, rhs: Self) -> bool {
        self.wf() && rhs.wf()
    }

    open spec fn add_spec(self, rhs: Self) -> Self {
        <Self as Ring>::add_spec(self, rhs)
    }
}

impl<P: LargePrimeProfile<LIMBS>, const LIMBS: usize> core::ops::Sub for LargePrimeField<P, LIMBS> {
    type Output = Self;

    fn sub(self, rhs: Self) -> (r: Self)
        ensures
            r == <Self as Ring>::sub_spec(self, rhs),
            r.wf(),
    {
        <Self as Ring>::sub_ref(&self, &rhs)
    }
}

impl<P: LargePrimeProfile<LIMBS>, const LIMBS: usize> vstd::std_specs::ops::SubSpecImpl for LargePrimeField<P, LIMBS> {
    open spec fn obeys_sub_spec() -> bool {
        false
    }

    open spec fn sub_req(self, rhs: Self) -> bool {
        self.wf() && rhs.wf()
    }

    open spec fn sub_spec(self, rhs: Self) -> Self {
        <Self as Ring>::sub_spec(self, rhs)
    }
}

impl<P: LargePrimeProfile<LIMBS>, const LIMBS: usize> core::ops::Mul for LargePrimeField<P, LIMBS> {
    type Output = Self;

    fn mul(self, rhs: Self) -> (r: Self)
        ensures
            r == <Self as Ring>::mul_spec(self, rhs),
            r.wf(),
    {
        <Self as Ring>::mul_ref(&self, &rhs)
    }
}

impl<P: LargePrimeProfile<LIMBS>, const LIMBS: usize> vstd::std_specs::ops::MulSpecImpl for LargePrimeField<P, LIMBS> {
    open spec fn obeys_mul_spec() -> bool {
        false
    }

    open spec fn mul_req(self, rhs: Self) -> bool {
        self.wf() && rhs.wf()
    }

    open spec fn mul_spec(self, rhs: Self) -> Self {
        <Self as Ring>::mul_spec(self, rhs)
    }
}

impl<P: LargePrimeProfile<LIMBS>, const LIMBS: usize> core::ops::Neg for LargePrimeField<P, LIMBS> {
    type Output = Self;

    fn neg(self) -> (r: Self)
        ensures
            r == <Self as Ring>::neg_spec(self),
            r.wf(),
    {
        <Self as Ring>::neg_ref(&self)
    }
}

impl<P: LargePrimeProfile<LIMBS>, const LIMBS: usize> vstd::std_specs::ops::NegSpecImpl for LargePrimeField<P, LIMBS> {
    open spec fn obeys_neg_spec() -> bool {
        false
    }

    open spec fn neg_req(self) -> bool {
        self.wf()
    }

    open spec fn neg_spec(self) -> Self {
        <Self as Ring>::neg_spec(self)
    }
}

impl<P: LargePrimeProfile<LIMBS>, const LIMBS: usize> LargePrimeField<P, LIMBS> {
    /// The modulus `q`.
    pub open spec fn modulus_spec() -> nat {
        limbs_value(P::MODULUS@)
    }

    /// The modulus is an odd prime.
    pub open spec fn prime_profile_ok() -> bool {
        &&& LIMBS > 0
        &&& Self::modulus_spec() > 2
        &&& is_prime(Self::modulus_spec())
    }

    fn modulus_biguint() -> (r: BigUint<LIMBS>)
        ensures
            r.value() == Self::modulus_spec(),
    {
        BigUint { limbs: P::MODULUS }
    }

    fn is_even_biguint(value: &BigUint<LIMBS>) -> (b: bool)
        requires
            LIMBS > 0,
        ensures
            b == (value.value() % 2 == 0),
    {
        let half = value.shr_bits(1);
        let (twice, _) = half.add_with_carry(&half);
        proof {
            vstd::arithmetic::power2::lemma2_to64();
            lemma_fundamental_div_mod(value.value() as int, 2);
            lemma_limbs_value_bound(value.limbs@);
        }
        let (diff, borrow) = value.sub_with_borrow(&twice);
        !borrow && diff.is_zero()
    }

    fn is_one_biguint(value: &BigUint<LIMBS>) -> (b: bool)
        requires
            LIMBS > 0,
        ensures
            b == (value.value() == 1),
    {
        let one = BigUint::<LIMBS>::one();
        let (diff, borrow) = value.sub_with_borrow(&one);
        !borrow && diff.is_zero()
    }

    /// `lhs - rhs mod q` for `lhs, rhs < q`.
    fn sub_mod_canonical(lhs: &BigUint<LIMBS>, rhs: &BigUint<LIMBS>, modulus: &BigUint<LIMBS>) -> (r: BigUint<LIMBS>)
        requires
            lhs.value() < modulus.value(),
            rhs.value() < modulus.value(),
        ensures
            r.value() < modulus.value(),
            (r.value() + rhs.value()) % modulus.value() == lhs.value() % modulus.value(),
    {
        let (diff, borrow) = lhs.sub_with_borrow(rhs);
        if !borrow {
            diff
        } else {
            let (rhs_minus_lhs, _) = rhs.sub_with_borrow(lhs);
            let (wrapped, _) = modulus.sub_with_borrow(&rhs_minus_lhs);
            proof {
                let m = modulus.value() as int;
                lemma_mod_multiples_vanish(1, lhs.value() as int, m);
            }
            wrapped
        }
    }

    /// `value / 2 mod q` for `value < q` and odd `q`: the `y < q` with `2 y = value`.
    fn half_mod_canonical(value: &BigUint<LIMBS>, modulus: &BigUint<LIMBS>) -> (r: BigUint<LIMBS>)
        requires
            LIMBS > 0,
            value.value() < modulus.value(),
            modulus.value() % 2 == 1,
        ensures
            r.value() < modulus.value(),
            (2 * r.value()) % modulus.value() == value.value() % modulus.value(),
    {
        proof {
            vstd::arithmetic::power2::lemma2_to64();
            lemma_limbs_value_bound(modulus.limbs@);
            lemma_fundamental_div_mod(value.value() as int, 2);
            lemma_fundamental_div_mod(modulus.value() as int, 2);
        }
        if Self::is_even_biguint(value) {
            value.shr_bits(1)
        } else {
            // (value + q) / 2 = value / 2 + q / 2 + 1 when both are odd.
            let (sum, _) = value.shr_bits(1).add_with_carry(&modulus.shr_bits(1));
            let (r, _) = sum.add_small(1);
            proof {
                let m = modulus.value() as int;
                lemma_mod_multiples_vanish(1, value.value() as int, m);
            }
            r
        }
    }

    /// The inverse of `value` modulo the prime `q`, by the binary extended
    /// Euclidean algorithm.
    pub fn invert_canonical(value: &BigUint<LIMBS>) -> (r: BigUint<LIMBS>)
        requires
            Self::prime_profile_ok(),
            0 < value.value() < Self::modulus_spec(),
        ensures
            r.value() < Self::modulus_spec(),
            (value.value() * r.value()) % Self::modulus_spec() == 1,
    {
        let modulus = Self::modulus_biguint();
        let ghost m = Self::modulus_spec();
        let ghost a = value.value();
        let mut u = *value;
        let mut v = modulus;
        let mut x1 = BigUint::<LIMBS>::one();
        let mut x2 = BigUint::<LIMBS>::zero();
        proof {
            lemma_small_mod(1, m);
            lemma_small_mod(a, m);
            vstd::arithmetic::div_mod::lemma_mod_self_0(m as int);
            assert(1 * a == a);
            assert(0 * a == 0);
            lemma_small_mod(0, m);
            // m is an odd prime.
            assert(m % 2 != 0);
            assert forall|d: nat| divides(d, u.value()) && divides(d, v.value()) implies d == 1 by {
                if d > 1 {
                    if d < m {
                        assert(m % d != 0);
                    } else {
                        lemma_small_mod(a, d);
                    }
                }
            }
        }
        while !Self::is_one_biguint(&u) && !Self::is_one_biguint(&v)
            invariant
                Self::prime_profile_ok(),
                m == Self::modulus_spec(),
                modulus.value() == m,
                m % 2 == 1,
                0 < a < m,
                x1.value() < m,
                x2.value() < m,
                (x1.value() * a) % m == u.value() % m,
                (x2.value() * a) % m == v.value() % m,
                v.value() > 0,
                u.value() > 0 || v.value() == 1,
                no_common_factor(u.value(), v.value()),
            decreases u.value() + v.value(),
        {
            let ghost u0 = u.value();
            let ghost v0 = v.value();
            while Self::is_even_biguint(&u)
                invariant
                    Self::prime_profile_ok(),
                    m == Self::modulus_spec(),
                    modulus.value() == m,
                    m % 2 == 1,
                    0 < a < m,
                    x1.value() < m,
                    (x1.value() * a) % m == u.value() % m,
                    0 < u.value() <= u0,
                    v.value() > 0,
                    no_common_factor(u.value(), v.value()),
                decreases u.value(),
            {
                let ghost uu = u.value();
                let ghost xx = x1.value();
                u = u.shr_bits(1);
                x1 = Self::half_mod_canonical(&x1, &modulus);
                proof {
                    vstd::arithmetic::power2::lemma2_to64();
                    lemma_fundamental_div_mod(uu as int, 2);
                    let h = u.value();
                    assert(uu == 2 * h);
                    // 2 (x1 a) = (2 x1) a = xx a = uu = 2 h (mod m)
                    let y = x1.value();
                    vstd::arithmetic::div_mod::lemma_mul_mod_noop_left((2 * y) as int, a as int, m as int);
                    vstd::arithmetic::div_mod::lemma_mul_mod_noop_left(xx as int, a as int, m as int);
                    assert((2 * y) * a == 2 * (y * a)) by (nonlinear_arith);
                    lemma_cancel_two(m, y * a, h);
                    assert forall|d: nat| divides(d, u.value()) && divides(d, v.value()) implies d == 1 by {
                        lemma_fundamental_div_mod(h as int, d as int);
                        let k = h / d;
                        assert(divides(d, uu)) by {
                            assert(uu == d * (2 * k)) by (nonlinear_arith)
                            requires
                                    uu == 2 * h,
                                    h == d * k + 0,
                            ;
                            lemma_mod_multiples_basic((2 * k) as int, d as int);
                            assert((2 * k) * d == d * (2 * k)) by (nonlinear_arith);
                        }
                    }
                }
            }
            while Self::is_even_biguint(&v)
                invariant
                    Self::prime_profile_ok(),
                    m == Self::modulus_spec(),
                    modulus.value() == m,
                    m % 2 == 1,
                    0 < a < m,
                    x2.value() < m,
                    (x2.value() * a) % m == v.value() % m,
                    0 < v.value() <= v0,
                    u.value() > 0,
                    u.value() <= u0,
                    no_common_factor(u.value(), v.value()),
                decreases v.value(),
            {
                let ghost vv = v.value();
                let ghost xx = x2.value();
                v = v.shr_bits(1);
                x2 = Self::half_mod_canonical(&x2, &modulus);
                proof {
                    vstd::arithmetic::power2::lemma2_to64();
                    lemma_fundamental_div_mod(vv as int, 2);
                    let h = v.value();
                    assert(vv == 2 * h);
                    let y = x2.value();
                    vstd::arithmetic::div_mod::lemma_mul_mod_noop_left((2 * y) as int, a as int, m as int);
                    vstd::arithmetic::div_mod::lemma_mul_mod_noop_left(xx as int, a as int, m as int);
                    assert((2 * y) * a == 2 * (y * a)) by (nonlinear_arith);
                    lemma_cancel_two(m, y * a, h);
                    assert forall|d: nat| divides(d, u.value()) && divides(d, v.value()) implies d == 1 by {
                        lemma_fundamental_div_mod(h as int, d as int);
                        let k = h / d;
                        assert(divides(d, vv)) by {
                            assert(vv == d * (2 * k)) by (nonlinear_arith)
                            requires
                                    vv == 2 * h,
                                    h == d * k + 0,
                            ;
                            lemma_mod_multiples_basic((2 * k) as int, d as int);
                            assert((2 * k) * d == d * (2 * k)) by (nonlinear_arith);
                        }
                    }
                }
            }
            let (u_minus_v, u_below_v) = u.sub_with_borrow(&v);
            if !u_below_v {
                let ghost xo = x1.value();
                x1 = Self::sub_mod_canonical(&x1, &x2, &modulus);
                proof {
                    lemma_sub_congruent(m, a, x1.value(), xo, x2.value(), u.value(), v.value());
                    assert forall|d: nat| divides(d, u_minus_v.value()) && divides(d, v.value()) implies d == 1 by {
                        crate::arith::rns::lemma_divides_lin(d, v.value(), u_minus_v.value(), 1);
                        assert(v.value() * 1 + u_minus_v.value() == u.value());
                        assert(divides(d, u.value()));
                    }
                    if u_minus_v.value() == 0 {
                        vstd::arithmetic::div_mod::lemma_mod_self_0(v.value() as int);
                        assert(divides(v.value(), u.value()) && divides(v.value(), v.value()));
                    }
                }
                u = u_minus_v;
            } else {
                let (v_minus_u, _) = v.sub_with_borrow(&u);
                let ghost xo = x2.value();
                x2 = Self::sub_mod_canonical(&x2, &x1, &modulus);
                proof {
                    lemma_sub_congruent(m, a, x2.value(), xo, x1.value(), v.value(), u.value());
                    assert forall|d: nat| divides(d, u.value()) && divides(d, v_minus_u.value()) implies d == 1 by {
                        crate::arith::rns::lemma_divides_lin(d, u.value(), v_minus_u.value(), 1);
                        assert(u.value() * 1 + v_minus_u.value() == v.value());
                        assert(divides(d, v.value()));
                    }
                }
                v = v_minus_u;
            }
        }
        if Self::is_one_biguint(&u) {
            proof {
                lemma_small_mod(1, m);
                assert(a * x1.value() == x1.value() * a) by (nonlinear_arith);
            }
            x1
        } else {
            proof {
                lemma_small_mod(1, m);
                assert(a * x2.value() == x2.value() * a) by (nonlinear_arith);
            }
            x2
        }
    }
}

} // verus!
