//! `PrimeField<Q, L>` — `Z_q` where `q` is an odd prime that fits in the limb type `L`.
//!
//! Uses Montgomery multiplication for modular arithmetic.
use crate::arith::large_modulus::LargeCanonicalRing;
use crate::arith::modular::{
    lemma_limb_pow2_values, lemma_mod_add_once, lemma_mod_ring_laws, lemma_mod_sub_once,
    lemma_pow2_64_value, lemma_wide_from_u64_u128, lemma_wide_from_u64_u16, lemma_wide_from_u64_u32,
    lemma_wide_from_u64_u64, pow2_64,
};
use crate::arith::ring::{
    Field, IntegerRing, Ring, dot_spec, pow_spec, ring_add_assign_scaled_slice, ring_add_assign_slice,
    ring_dot_product, ring_pointwise_mul_assign_slice, ring_pow, ring_scalar_mul_slice,
    ring_sub_assign_slice, seq_wf,
};
use crate::arith::rns::{gcd, is_prime, lemma_gcd_prime, mod_inv_u64};
use crate::arith::montgomery::{
    lemma_mont_ring, lemma_mont_step, lemma_mont_unique, lemma_mont_values, lemma_rinv,
    lemma_split_sum, lemma_to_mont_raw, lemma_to_mont_value, mont_mul, neg_inv_u64, rinv,
};
use vstd::arithmetic::div_mod::*;
use vstd::arithmetic::mul::*;
use vstd::arithmetic::power2::*;
use vstd::bits::{
    lemma_low_bits_mask_unfold, lemma_u128_shr_is_div, lemma_u16_shr_is_div, lemma_u32_shr_is_div,
    lemma_u64_low_bits_mask_is_mod, lemma_u64_pow2_no_overflow, lemma_u64_shl_is_mul,
    lemma_u64_shr_is_div,
};
use vstd::prelude::*;
use vstd::std_specs::bits::{u16_leading_zeros, u32_leading_zeros, u64_leading_zeros, u8_leading_zeros};

/// Seals [`PrimeFieldLimb`] so that only the four primitive unsigned integers implement it.
pub mod limb_sealed;

verus! {

/// Goldilocks prime: `2^64 - 2^32 + 1`.
pub const GOLDILOCKS_MODULUS: u64 = 0xffff_ffff_0000_0001;

/// A word type usable as the Montgomery backend of [`PrimeField`], with the
/// exact arithmetic meaning of each operation.
pub trait PrimeFieldLimb: limb_sealed::Sealed + Sized + Copy {
    /// The next-wider unsigned integer (`u16` for `u8`, ..., `u128` for `u64`).
    type Wide: Copy;

    /// The number of bits of the limb type.
    spec fn bits_nat() -> nat;

    /// `2^bits`.
    spec fn base() -> nat;

    /// `2^(2 * bits)`, the range of the wide type.
    spec fn wide_base() -> nat;

    /// The value of a limb.
    spec fn nat_of(self) -> nat;

    /// The value of a wide word.
    spec fn wide_nat(w: Self::Wide) -> nat;

    /// The limb with value `n mod 2^bits`.
    spec fn from_nat(n: nat) -> Self;

    /// The width facts, the range of limbs, and that a limb is its value.
    proof fn lemma_limb(a: Self, b: Self)
        ensures
            Self::bits_nat() == 8 || Self::bits_nat() == 16 || Self::bits_nat() == 32
                || Self::bits_nat() == 64,
            Self::base() == pow2(Self::bits_nat()),
            Self::wide_base() == Self::base() * Self::base(),
            Self::wide_base() == pow2(2 * Self::bits_nat()),
            a.nat_of() < Self::base(),
            b.nat_of() < Self::base(),
            a.nat_of() == b.nat_of() ==> a == b,
    ;

    /// The range of wide words.
    proof fn lemma_wide(w: Self::Wide)
        ensures
            Self::wide_nat(w) < Self::wide_base(),
    ;

    /// `from_nat` inverts `nat_of` on the limb range.
    proof fn lemma_from_nat(n: nat)
        requires
            n < Self::base(),
        ensures
            Self::from_nat(n).nat_of() == n,
    ;

    /// The number of bits (`8`, `16`, `32` or `64`).
    fn bits() -> (r: u32)
        ensures
            r as nat == Self::bits_nat(),
    ;

    /// The limb `0`.
    fn zero() -> (r: Self)
        ensures
            r.nat_of() == 0,
    ;

    /// The limb `1`.
    fn one() -> (r: Self)
        ensures
            r.nat_of() == 1,
    ;

    /// The largest limb, `2^bits - 1`.
    fn max_value() -> (r: Self)
        ensures
            r.nat_of() == Self::base() - 1,
    ;

    /// `v mod 2^bits` (an `as` cast).
    fn from_u64(v: u64) -> (r: Self)
        ensures
            r.nat_of() == (v as nat) % Self::base(),
    ;

    /// The limb widened to `u64`.
    fn to_u64(self) -> (r: u64)
        ensures
            r as nat == self.nat_of(),
    ;

    /// The limb widened to the wide type.
    fn to_wide(self) -> (r: Self::Wide)
        ensures
            Self::wide_nat(r) == self.nat_of(),
    ;

    /// The low `bits` bits of a wide word.
    fn from_wide_truncate(w: Self::Wide) -> (r: Self)
        ensures
            r.nat_of() == Self::wide_nat(w) % Self::base(),
    ;

    /// `(self + rhs) mod 2^bits`.
    fn wrapping_add(self, rhs: Self) -> (r: Self)
        ensures
            r.nat_of() == (self.nat_of() + rhs.nat_of()) % Self::base(),
    ;

    /// `(self - rhs) mod 2^bits`.
    fn wrapping_sub(self, rhs: Self) -> (r: Self)
        ensures
            r.nat_of() as int == (self.nat_of() - rhs.nat_of()) % (Self::base() as int),
    ;

    /// `(self * rhs) mod 2^bits`.
    fn wrapping_mul(self, rhs: Self) -> (r: Self)
        ensures
            r.nat_of() == (self.nat_of() * rhs.nat_of()) % Self::base(),
    ;

    /// `(self + rhs) mod 2^bits`, with the carry out.
    fn overflowing_add(self, rhs: Self) -> (r: (Self, bool))
        ensures
            r.0.nat_of() == (self.nat_of() + rhs.nat_of()) % Self::base(),
            r.1 == (self.nat_of() + rhs.nat_of() >= Self::base()),
    ;

    /// `(a + b) mod 2^(2 bits)`.
    fn wide_add(a: Self::Wide, b: Self::Wide) -> (r: Self::Wide)
        ensures
            Self::wide_nat(r) == (Self::wide_nat(a) + Self::wide_nat(b)) % Self::wide_base(),
    ;

    /// `(a * b) mod 2^(2 bits)`.
    fn wide_mul(a: Self::Wide, b: Self::Wide) -> (r: Self::Wide)
        ensures
            Self::wide_nat(r) == (Self::wide_nat(a) * Self::wide_nat(b)) % Self::wide_base(),
    ;

    /// `w / 2^shift` for a shift below the wide width.
    fn wide_shr(w: Self::Wide, shift: u32) -> (r: Self::Wide)
        requires
            shift < 2 * Self::bits_nat(),
        ensures
            Self::wide_nat(r) == Self::wide_nat(w) / pow2(shift as nat),
    ;

    /// `v mod 2^(2 bits)` as a wide word.
    fn wide_from_u64(v: u64) -> (r: Self::Wide)
        ensures
            Self::wide_nat(r) == (v as nat) % Self::wide_base(),
    ;

    /// `(-self) mod 2^bits`.
    fn wrapping_neg(self) -> (r: Self)
        ensures
            r.nat_of() as int == (0 - self.nat_of()) % (Self::base() as int),
    ;

    /// `self mod modulus`.
    fn mod_limb(self, modulus: Self) -> (r: Self)
        requires
            modulus.nat_of() > 0,
        ensures
            r.nat_of() == self.nat_of() % modulus.nat_of(),
    ;

    /// `self < rhs`.
    fn lt(self, rhs: Self) -> (r: bool)
        ensures
            r == (self.nat_of() < rhs.nat_of()),
    ;

    /// The number of leading zero bits of the limb.
    spec fn leading_zeros_spec(self) -> nat;

    /// The number of leading zero bits of the limb.
    fn leading_zeros(self) -> (r: u32)
        ensures
            r as nat == self.leading_zeros_spec(),
    ;
}

impl PrimeFieldLimb for u8 {
    type Wide = u16;

    open spec fn bits_nat() -> nat {
        8
    }

    open spec fn base() -> nat {
        0x100
    }

    open spec fn wide_base() -> nat {
        (0x1_0000) as nat
    }

    open spec fn nat_of(self) -> nat {
        self as nat
    }

    open spec fn wide_nat(w: u16) -> nat {
        w as nat
    }

    open spec fn from_nat(n: nat) -> u8 {
        n as u8
    }

    proof fn lemma_limb(a: u8, b: u8) {
        lemma_limb_pow2_values();
    }

    proof fn lemma_wide(w: u16) {
        lemma_limb_pow2_values();
    }

    proof fn lemma_from_nat(n: nat) {
    }

    fn bits() -> (r: u32) {
        8
    }

    fn zero() -> (r: u8) {
        0
    }

    fn one() -> (r: u8) {
        1
    }

    fn max_value() -> (r: u8) {
        u8::MAX
    }

    fn from_u64(v: u64) -> (r: u8) {
        proof {
            assert((v as u8) as nat == (v as nat) % 0x100) by (bit_vector);
        }
        v as u8
    }

    fn to_u64(self) -> (r: u64) {
        self as u64
    }

    fn to_wide(self) -> (r: u16) {
        self as u16
    }

    fn from_wide_truncate(w: u16) -> (r: u8) {
        proof {
            assert((w as u8) as nat == (w as nat) % 0x100) by (bit_vector);
        }
        w as u8
    }

    fn wrapping_add(self, rhs: u8) -> (r: u8) {
        proof {
            lemma_mod_add_once(self + rhs, 0x100);
        }
        self.wrapping_add(rhs)
    }

    fn wrapping_sub(self, rhs: u8) -> (r: u8) {
        proof {
            lemma_mod_sub_once(self - rhs, 0x100);
        }
        self.wrapping_sub(rhs)
    }

    fn wrapping_mul(self, rhs: u8) -> (r: u8) {
        self.wrapping_mul(rhs)
    }

    fn overflowing_add(self, rhs: u8) -> (r: (u8, bool)) {
        proof {
            lemma_mod_add_once(self + rhs, 0x100);
        }
        let s = self.wrapping_add(rhs);
        (s, s < self)
    }

    fn wide_add(a: u16, b: u16) -> (r: u16) {
        proof {
            lemma_mod_add_once(a + b, 0x1_0000);
        }
        a.wrapping_add(b)
    }

    fn wide_mul(a: u16, b: u16) -> (r: u16) {
        a.wrapping_mul(b)
    }

    fn wide_shr(w: u16, shift: u32) -> (r: u16) {
        proof {
            lemma_u16_shr_is_div(w, shift as u16);
        }
        w >> shift
    }

    fn wide_from_u64(v: u64) -> (r: u16) {
        proof {
            lemma_wide_from_u64_u16(v);
        }
        v as u16
    }

    fn wrapping_neg(self) -> (r: u8) {
        proof {
            lemma_mod_sub_once(0 - self, 0x100);
        }
        (0 as u8).wrapping_sub(self)
    }

    fn mod_limb(self, modulus: u8) -> (r: u8) {
        if self < modulus {
            proof {
                vstd::arithmetic::div_mod::lemma_small_mod(self as nat, modulus as nat);
            }
            self
        } else {
            self % modulus
        }
    }

    fn lt(self, rhs: u8) -> (r: bool) {
        self < rhs
    }

    open spec fn leading_zeros_spec(self) -> nat {
        u8_leading_zeros(self) as nat
    }

    fn leading_zeros(self) -> (r: u32) {
        self.leading_zeros()
    }
}

impl PrimeFieldLimb for u16 {
    type Wide = u32;

    open spec fn bits_nat() -> nat {
        16
    }

    open spec fn base() -> nat {
        0x1_0000
    }

    open spec fn wide_base() -> nat {
        (0x1_0000_0000) as nat
    }

    open spec fn nat_of(self) -> nat {
        self as nat
    }

    open spec fn wide_nat(w: u32) -> nat {
        w as nat
    }

    open spec fn from_nat(n: nat) -> u16 {
        n as u16
    }

    proof fn lemma_limb(a: u16, b: u16) {
        lemma_limb_pow2_values();
    }

    proof fn lemma_wide(w: u32) {
        lemma_limb_pow2_values();
    }

    proof fn lemma_from_nat(n: nat) {
    }

    fn bits() -> (r: u32) {
        16
    }

    fn zero() -> (r: u16) {
        0
    }

    fn one() -> (r: u16) {
        1
    }

    fn max_value() -> (r: u16) {
        u16::MAX
    }

    fn from_u64(v: u64) -> (r: u16) {
        proof {
            assert((v as u16) as nat == (v as nat) % 0x1_0000) by (bit_vector);
        }
        v as u16
    }

    fn to_u64(self) -> (r: u64) {
        self as u64
    }

    fn to_wide(self) -> (r: u32) {
        self as u32
    }

    fn from_wide_truncate(w: u32) -> (r: u16) {
        proof {
            assert((w as u16) as nat == (w as nat) % 0x1_0000) by (bit_vector);
        }
        w as u16
    }

    fn wrapping_add(self, rhs: u16) -> (r: u16) {
        proof {
            lemma_mod_add_once(self + rhs, 0x1_0000);
        }
        self.wrapping_add(rhs)
    }

    fn wrapping_sub(self, rhs: u16) -> (r: u16) {
        proof {
            lemma_mod_sub_once(self - rhs, 0x1_0000);
        }
        self.wrapping_sub(rhs)
    }

    fn wrapping_mul(self, rhs: u16) -> (r: u16) {
        self.wrapping_mul(rhs)
    }

    fn overflowing_add(self, rhs: u16) -> (r: (u16, bool)) {
        proof {
            lemma_mod_add_once(self + rhs, 0x1_0000);
        }
        let s = self.wrapping_add(rhs);
        (s, s < self)
    }

    fn wide_add(a: u32, b: u32) -> (r: u32) {
        proof {
            lemma_mod_add_once(a + b, 0x1_0000_0000);
        }
        a.wrapping_add(b)
    }

    fn wide_mul(a: u32, b: u32) -> (r: u32) {
        a.wrapping_mul(b)
    }

    fn wide_shr(w: u32, shift: u32) -> (r: u32) {
        proof {
            lemma_u32_shr_is_div(w, shift as u32);
        }
        w >> shift
    }

    fn wide_from_u64(v: u64) -> (r: u32) {
        proof {
            lemma_wide_from_u64_u32(v);
        }
        v as u32
    }

    fn wrapping_neg(self) -> (r: u16) {
        proof {
            lemma_mod_sub_once(0 - self, 0x1_0000);
        }
        (0 as u16).wrapping_sub(self)
    }

    fn mod_limb(self, modulus: u16) -> (r: u16) {
        if self < modulus {
            proof {
                vstd::arithmetic::div_mod::lemma_small_mod(self as nat, modulus as nat);
            }
            self
        } else {
            self % modulus
        }
    }

    fn lt(self, rhs: u16) -> (r: bool) {
        self < rhs
    }

    open spec fn leading_zeros_spec(self) -> nat {
        u16_leading_zeros(self) as nat
    }

    fn leading_zeros(self) -> (r: u32) {
        self.leading_zeros()
    }
}

impl PrimeFieldLimb for u32 {
    type Wide = u64;

    open spec fn bits_nat() -> nat {
        32
    }

    open spec fn base() -> nat {
        0x1_0000_0000
    }

    open spec fn wide_base() -> nat {
        (0x1_0000_0000_0000_0000) as nat
    }

    open spec fn nat_of(self) -> nat {
        self as nat
    }

    open spec fn wide_nat(w: u64) -> nat {
        w as nat
    }

    open spec fn from_nat(n: nat) -> u32 {
        n as u32
    }

    proof fn lemma_limb(a: u32, b: u32) {
        lemma_limb_pow2_values();
    }

    proof fn lemma_wide(w: u64) {
        lemma_limb_pow2_values();
    }

    proof fn lemma_from_nat(n: nat) {
    }

    fn bits() -> (r: u32) {
        32
    }

    fn zero() -> (r: u32) {
        0
    }

    fn one() -> (r: u32) {
        1
    }

    fn max_value() -> (r: u32) {
        u32::MAX
    }

    fn from_u64(v: u64) -> (r: u32) {
        proof {
            assert((v as u32) as nat == (v as nat) % 0x1_0000_0000) by (bit_vector);
        }
        v as u32
    }

    fn to_u64(self) -> (r: u64) {
        self as u64
    }

    fn to_wide(self) -> (r: u64) {
        self as u64
    }

    fn from_wide_truncate(w: u64) -> (r: u32) {
        proof {
            assert((w as u32) as nat == (w as nat) % 0x1_0000_0000) by (bit_vector);
        }
        w as u32
    }

    fn wrapping_add(self, rhs: u32) -> (r: u32) {
        proof {
            lemma_mod_add_once(self + rhs, 0x1_0000_0000);
        }
        self.wrapping_add(rhs)
    }

    fn wrapping_sub(self, rhs: u32) -> (r: u32) {
        proof {
            lemma_mod_sub_once(self - rhs, 0x1_0000_0000);
        }
        self.wrapping_sub(rhs)
    }

    fn wrapping_mul(self, rhs: u32) -> (r: u32) {
        self.wrapping_mul(rhs)
    }

    fn overflowing_add(self, rhs: u32) -> (r: (u32, bool)) {
        proof {
            lemma_mod_add_once(self + rhs, 0x1_0000_0000);
        }
        let s = self.wrapping_add(rhs);
        (s, s < self)
    }

    fn wide_add(a: u64, b: u64) -> (r: u64) {
        proof {
            lemma_mod_add_once(a + b, 0x1_0000_0000_0000_0000);
        }
        a.wrapping_add(b)
    }

    fn wide_mul(a: u64, b: u64) -> (r: u64) {
        a.wrapping_mul(b)
    }

    fn wide_shr(w: u64, shift: u32) -> (r: u64) {
        proof {
            lemma_u64_shr_is_div(w, shift as u64);
        }
        w >> shift
    }

    fn wide_from_u64(v: u64) -> (r: u64) {
        proof {
            lemma_wide_from_u64_u64(v);
        }
        v as u64
    }

    fn wrapping_neg(self) -> (r: u32) {
        proof {
            lemma_mod_sub_once(0 - self, 0x1_0000_0000);
        }
        (0 as u32).wrapping_sub(self)
    }

    fn mod_limb(self, modulus: u32) -> (r: u32) {
        if self < modulus {
            proof {
                vstd::arithmetic::div_mod::lemma_small_mod(self as nat, modulus as nat);
            }
            self
        } else {
            self % modulus
        }
    }

    fn lt(self, rhs: u32) -> (r: bool) {
        self < rhs
    }

    open spec fn leading_zeros_spec(self) -> nat {
        u32_leading_zeros(self) as nat
    }

    fn leading_zeros(self) -> (r: u32) {
        self.leading_zeros()
    }
}

impl PrimeFieldLimb for u64 {
    type Wide = u128;

    open spec fn bits_nat() -> nat {
        64
    }

    open spec fn base() -> nat {
        0x1_0000_0000_0000_0000
    }

    open spec fn wide_base() -> nat {
        (0x1_0000_0000_0000_0000_0000_0000_0000_0000int) as nat
    }

    open spec fn nat_of(self) -> nat {
        self as nat
    }

    open spec fn wide_nat(w: u128) -> nat {
        w as nat
    }

    open spec fn from_nat(n: nat) -> u64 {
        n as u64
    }

    proof fn lemma_limb(a: u64, b: u64) {
        lemma_limb_pow2_values();
    }

    proof fn lemma_wide(w: u128) {
        lemma_limb_pow2_values();
    }

    proof fn lemma_from_nat(n: nat) {
    }

    fn bits() -> (r: u32) {
        64
    }

    fn zero() -> (r: u64) {
        0
    }

    fn one() -> (r: u64) {
        1
    }

    fn max_value() -> (r: u64) {
        u64::MAX
    }

    fn from_u64(v: u64) -> (r: u64) {
        proof {
            assert((v as u64) as nat == (v as nat) % 0x1_0000_0000_0000_0000) by (bit_vector);
        }
        v as u64
    }

    fn to_u64(self) -> (r: u64) {
        self as u64
    }

    fn to_wide(self) -> (r: u128) {
        self as u128
    }

    fn from_wide_truncate(w: u128) -> (r: u64) {
        proof {
            assert((w as u64) as nat == (w as nat) % 0x1_0000_0000_0000_0000) by (bit_vector);
        }
        w as u64
    }

    fn wrapping_add(self, rhs: u64) -> (r: u64) {
        proof {
            lemma_mod_add_once(self + rhs, 0x1_0000_0000_0000_0000);
        }
        self.wrapping_add(rhs)
    }

    fn wrapping_sub(self, rhs: u64) -> (r: u64) {
        proof {
            lemma_mod_sub_once(self - rhs, 0x1_0000_0000_0000_0000);
        }
        self.wrapping_sub(rhs)
    }

    fn wrapping_mul(self, rhs: u64) -> (r: u64) {
        self.wrapping_mul(rhs)
    }

    fn overflowing_add(self, rhs: u64) -> (r: (u64, bool)) {
        proof {
            lemma_mod_add_once(self + rhs, 0x1_0000_0000_0000_0000);
        }
        let s = self.wrapping_add(rhs);
        (s, s < self)
    }

    fn wide_add(a: u128, b: u128) -> (r: u128) {
        proof {
            lemma_mod_add_once(a + b, 0x1_0000_0000_0000_0000_0000_0000_0000_0000int);
        }
        a.wrapping_add(b)
    }

    fn wide_mul(a: u128, b: u128) -> (r: u128) {
        a.wrapping_mul(b)
    }

    fn wide_shr(w: u128, shift: u32) -> (r: u128) {
        proof {
            lemma_u128_shr_is_div(w, shift as u128);
        }
        w >> shift
    }

    fn wide_from_u64(v: u64) -> (r: u128) {
        proof {
            lemma_wide_from_u64_u128(v);
        }
        v as u128
    }

    fn wrapping_neg(self) -> (r: u64) {
        proof {
            lemma_mod_sub_once(0 - self, 0x1_0000_0000_0000_0000);
        }
        (0 as u64).wrapping_sub(self)
    }

    fn mod_limb(self, modulus: u64) -> (r: u64) {
        if self < modulus {
            proof {
                vstd::arithmetic::div_mod::lemma_small_mod(self as nat, modulus as nat);
            }
            self
        } else {
            self % modulus
        }
    }

    fn lt(self, rhs: u64) -> (r: bool) {
        self < rhs
    }

    open spec fn leading_zeros_spec(self) -> nat {
        u64_leading_zeros(self) as nat
    }

    fn leading_zeros(self) -> (r: u32) {
        self.leading_zeros()
    }
}

/// A modular integer in Montgomery form for an odd prime modulus `Q`.
///
/// The value `a` is stored as `a * R mod Q`, where `R = 2^{bits}` of the limb
/// type `L`.
#[derive(Clone, Copy, Debug)]
pub struct PrimeField<const Q: u64, L: PrimeFieldLimb = u64> {
    val: L,
}

impl<const Q: u64, L: PrimeFieldLimb> PrimeField<Q, L> {
    /// The modulus is an odd prime (at least `3`) that fits in the limb type.
    pub open spec fn q_ok() -> bool {
        3 <= Q && Q % 2 == 1 && Q < L::base() && Self::q_prime()
    }

    /// The modulus is prime.
    #[verifier::opaque]
    pub open spec fn q_prime() -> bool {
        is_prime(Q as nat)
    }

    /// An admissible modulus is prime.
    pub proof fn lemma_q_prime()
        requires
            Self::q_ok(),
        ensures
            is_prime(Q as nat),
    {
        reveal(PrimeField::q_prime);
    }

    /// `R^{-1} mod Q`.
    pub open spec fn rinv_spec() -> nat {
        rinv(Q as nat, L::bits_nat())
    }

    /// The stored Montgomery representative.
    pub closed spec fn raw_nat(self) -> nat {
        self.val.nat_of()
    }

    /// The element with Montgomery representative `n < Q`.
    pub closed spec fn from_rep(n: nat) -> Self {
        PrimeField { val: L::from_nat(n) }
    }

    proof fn lemma_from_rep(n: nat)
        requires
            Self::q_ok(),
            n < Q,
        ensures
            Self::from_rep(n).raw_nat() == n,
    {
        L::lemma_from_nat(n);
    }

    /// Elements with equal Montgomery words are equal.
    pub proof fn lemma_eq_by_raw(a: Self, b: Self)
        requires
            a.raw_nat() == b.raw_nat(),
        ensures
            a == b,
    {
        L::lemma_limb(a.val, b.val);
    }

    /// An element is valid exactly when the modulus is admissible and its Montgomery
    /// word is below `Q`; its value is that word times `R^{-1}`, reduced mod `Q`.
    pub proof fn lemma_raw_view(a: Self)
        ensures
            a.wf() <==> (Self::q_ok() && a.raw_nat() < Q),
            a.value() == (a.raw_nat() * Self::rinv_spec()) % (Q as nat),
    {
    }

    /// Facts about the Montgomery constants.
    proof fn lemma_params()
        requires
            Self::q_ok(),
        ensures
            Self::rinv_spec() < Q,
            (L::base() * Self::rinv_spec()) as int % (Q as int) == 1,
            L::base() == pow2(L::bits_nat()),
            L::base() >= 256,
            Q > 1,
    {
        L::lemma_limb(L::from_nat(0), L::from_nat(0));
        lemma_rinv(Q as nat, L::bits_nat());
        lemma_limb_pow2_values();
    }

    fn modulus_limb() -> (r: L)
        ensures
            Self::q_ok() ==> r.nat_of() == Q,
    {
        let r = L::from_u64(Q);
        proof {
            if Self::q_ok() {
                lemma_small_mod(Q as nat, L::base());
            }
        }
        r
    }

    /// `R mod Q` as a `u64`.
    pub fn r_mod_q_u64() -> (r: u64)
        requires
            Self::q_ok(),
        ensures
            r == L::base() % (Q as nat),
    {
        proof {
            Self::lemma_params();
            L::lemma_limb(L::from_nat(0), L::from_nat(0));
        }
        let bits = L::bits();
        if bits < 64 {
            proof {
                lemma_u64_pow2_no_overflow(bits as nat);
                lemma_u64_shl_is_mul(1, bits as u64);
            }
            (1u64 << bits) % Q
        } else {
            proof {
                lemma_pow2_64_value();
                lemma_add_mod_noop(u64::MAX as int, 1, Q as int);
                lemma_mod_bound(u64::MAX as int, Q as int);
                lemma_small_mod(1, Q as nat);
                lemma_mod_twice(u64::MAX as int + 1, Q as int);
            }
            (u64::MAX % Q + 1) % Q
        }
    }

    /// `R^2 mod Q` as a `u64`.
    fn r2_mod_q_u64() -> (r: u64)
        requires
            Self::q_ok(),
        ensures
            r == (L::base() * L::base()) % (Q as nat),
            r < Q,
    {
        let r = Self::r_mod_q_u64();
        proof {
            lemma_mod_bound(L::base() as int, Q as int);
            lemma_mul_upper_bound(r as int, Q as int, r as int, Q as int);
            lemma_mul_mod_noop(L::base() as int, L::base() as int, Q as int);
            lemma_mod_bound((r * r) as int, Q as int);
            assert((r as int) * (r as int) <= 0xffff_ffff_ffff_ffff * 0xffff_ffff_ffff_ffff) by (nonlinear_arith)
                requires 0 <= r <= 0xffff_ffff_ffff_ffff;
        }
        let r2 = (r as u128 * r as u128) % (Q as u128);
        r2 as u64
    }

    /// `-Q^{-1} mod R`.
    pub fn q_inv_limb() -> (r: L)
        ensures
            Q % 2 == 1 ==> (Q * r.nat_of() + 1) % (L::base() as int) == 0,
    {
        let inv64 = neg_inv_u64(Q);
        let bits = L::bits();
        let inv = if bits < 64 {
            proof {
                L::lemma_limb(L::from_nat(0), L::from_nat(0));
                lemma_u64_pow2_no_overflow(bits as nat);
                lemma_u64_shl_is_mul(1, bits as u64);
                lemma_u64_low_bits_mask_is_mod(inv64, bits as nat);
            }
            inv64 & ((1u64 << bits).wrapping_sub(1))
        } else {
            inv64
        };
        let r = L::from_u64(inv);
        proof {
            L::lemma_limb(r, r);
            lemma_limb_pow2_values();
            if Q % 2 == 1 {
                let base = L::base() as int;
                let p = pow2_64() as int;
                lemma_pow2_64_value();
                lemma_pow2_pos(L::bits_nat());
                // r == inv64 mod base, and base divides 2^64
                assert(r.nat_of() as int == inv64 as int % base) by {
                    if bits < 64 {
                        lemma_mod_twice(inv64 as int, base);
                    }
                }
                lemma_mul_mod_noop_right(Q as int, inv64 as int, base);
                lemma_add_mod_noop(Q as int * (inv64 as int % base), 1, base);
                lemma_add_mod_noop(Q as int * inv64 as int, 1, base);
                lemma_pow2_adds(L::bits_nat(), (64 - L::bits_nat()) as nat);
                lemma_pow2_pos((64 - L::bits_nat()) as nat);
                lemma_mod_mod(Q as int * inv64 as int + 1, base, pow2((64 - L::bits_nat()) as nat) as int);
            }
        }
        r
    }

    /// `(lhs + rhs) mod Q` on representatives below `Q`.
    pub(crate) fn add_raw_words(lhs: L, rhs: L) -> (r: L)
        ensures
            Self::q_ok() && lhs.nat_of() < Q && rhs.nat_of() < Q ==> r.nat_of() == (lhs.nat_of()
                + rhs.nat_of()) % (Q as nat),
    {
        let q = Self::modulus_limb();
        let bits = L::bits();
        proof {
            L::lemma_limb(lhs, rhs);
        }
        if Q < (1u64 << (bits - 1)) {
            let sum = lhs.wrapping_add(rhs);
            proof {
                if Self::q_ok() && lhs.nat_of() < Q && rhs.nat_of() < Q {
                    lemma_u64_pow2_no_overflow((bits - 1) as nat);
                    lemma_u64_shl_is_mul(1, (bits - 1) as u64);
                    lemma_pow2_unfold(L::bits_nat());
                    lemma_small_mod((lhs.nat_of() + rhs.nat_of()) as nat, L::base());
                    lemma_mod_add_once((lhs.nat_of() + rhs.nat_of()) as int, Q as int);
                }
            }
            if !sum.lt(q) {
                let d = sum.wrapping_sub(q);
                proof {
                    if Self::q_ok() && lhs.nat_of() < Q && rhs.nat_of() < Q {
                        lemma_small_mod((sum.nat_of() - Q) as nat, L::base());
                    }
                }
                return d;
            }
            return sum;
        }
        let (sum, carry) = lhs.overflowing_add(rhs);
        proof {
            if Self::q_ok() && lhs.nat_of() < Q && rhs.nat_of() < Q {
                lemma_mod_add_once((lhs.nat_of() + rhs.nat_of()) as int, Q as int);
                lemma_mod_add_once((lhs.nat_of() + rhs.nat_of()) as int, L::base() as int);
            }
        }
        if carry || !sum.lt(q) {
            let d = sum.wrapping_sub(q);
            proof {
                if Self::q_ok() && lhs.nat_of() < Q && rhs.nat_of() < Q {
                    lemma_mod_sub_once(sum.nat_of() - Q, L::base() as int);
                }
            }
            d
        } else {
            sum
        }
    }

    /// `(lhs - rhs) mod Q` on representatives below `Q`.
    pub(crate) fn sub_raw_words(lhs: L, rhs: L) -> (r: L)
        ensures
            Self::q_ok() && lhs.nat_of() < Q && rhs.nat_of() < Q ==> r.nat_of() as int == (
            lhs.nat_of() - rhs.nat_of()) % (Q as int),
    {
        let q = Self::modulus_limb();
        proof {
            L::lemma_limb(lhs, rhs);
        }
        if !lhs.lt(rhs) {
            let d = lhs.wrapping_sub(rhs);
            proof {
                if Self::q_ok() && lhs.nat_of() < Q && rhs.nat_of() < Q {
                    lemma_small_mod((lhs.nat_of() - rhs.nat_of()) as nat, L::base());
                    lemma_small_mod((lhs.nat_of() - rhs.nat_of()) as nat, Q as nat);
                }
            }
            d
        } else {
            let t = q.wrapping_sub(rhs);
            let d = t.wrapping_add(lhs);
            proof {
                if Self::q_ok() && lhs.nat_of() < Q && rhs.nat_of() < Q {
                    lemma_small_mod((Q - rhs.nat_of()) as nat, L::base());
                    lemma_small_mod((Q - rhs.nat_of() + lhs.nat_of()) as nat, L::base());
                    lemma_mod_sub_once(lhs.nat_of() - rhs.nat_of(), Q as int);
                }
            }
            d
        }
    }

    /// Montgomery reduction: for `t < Q R`, the representative `r < Q` with
    /// `r R == t (mod Q)`.
    fn montgomery_reduce(t: L::Wide) -> (r: L)
        ensures
            Self::q_ok() && L::wide_nat(t) < Q * L::base() ==> r.nat_of() < Q && (r.nat_of()
                * L::base()) as int % (Q as int) == L::wide_nat(t) as int % (Q as int),
    {
        let q_limb = Self::modulus_limb();
        let bits = L::bits();
        proof {
            L::lemma_limb(q_limb, q_limb);
            L::lemma_wide(t);
        }
        if Q >= (1u64 << (bits - 1)) {
            return Self::montgomery_reduce_wide(t);
        }
        let q_inv = Self::q_inv_limb();
        let t_lo = L::from_wide_truncate(t);
        let m = t_lo.wrapping_mul(q_inv);
        let mq = L::wide_mul(L::to_wide(m), L::to_wide(q_limb));
        let t_plus_mq = L::wide_add(t, mq);
        let shifted = L::wide_shr(t_plus_mq, bits);
        let result = L::from_wide_truncate(shifted);
        let ghost cond = Self::q_ok() && L::wide_nat(t) < Q * L::base();
        proof {
            L::lemma_limb(m, q_inv);
            L::lemma_wide(mq);
            if cond {
                let base = L::base() as int;
                let tn = L::wide_nat(t) as int;
                let mn = m.nat_of() as int;
                let qi = Q as int;
                lemma_u64_pow2_no_overflow((bits - 1) as nat);
                lemma_u64_shl_is_mul(1, (bits - 1) as u64);
                lemma_pow2_unfold(L::bits_nat());
                assert(2 * qi < base);
                assert(t_lo.nat_of() as int == tn % base);
                lemma_mont_step(tn, qi, q_inv.nat_of() as int, base, mn);
                lemma_mul_strict_inequality(mn, base, qi);
                lemma_mul_strict_inequality(qi, base, base);
                lemma_mul_is_commutative(qi, base);
                lemma_mul_is_commutative(mn, qi);
                assert(mn * qi < base * base);
                lemma_small_mod((mn * qi) as nat, L::wide_base());
                assert(L::wide_nat(mq) as int == mn * qi);
                assert(tn + mn * qi < base * base) by (nonlinear_arith)
                    requires
                        tn < qi * base,
                        mn * qi < base * qi,
                        2 * qi < base,
                        qi > 0,
                ;
                lemma_small_mod((tn + mn * qi) as nat, L::wide_base());
                assert(L::wide_nat(t_plus_mq) as int == tn + mn * qi);
                assert(L::wide_nat(shifted) as int == (tn + mn * qi) / base);
                lemma_small_mod(L::wide_nat(shifted), L::base());
                assert(result.nat_of() as int == (tn + mn * qi) / base);
            }
        }
        if !result.lt(q_limb) {
            let d = result.wrapping_sub(q_limb);
            proof {
                if cond {
                    let base = L::base() as int;
                    let rn = result.nat_of() as int;
                    lemma_small_mod((rn - Q) as nat, L::base());
                    assert((rn - Q) * base == rn * base + (- base) * Q) by (nonlinear_arith);
                    lemma_mod_multiples_vanish(- base, rn * base, Q as int);
                    lemma_mul_is_commutative(- base, Q as int);
                }
            }
            d
        } else {
            result
        }
    }

    /// Montgomery reduction for moduli in `[R/2, R)`, carrying through two limbs.
    fn montgomery_reduce_wide(t: L::Wide) -> (r: L)
        ensures
            Self::q_ok() && L::wide_nat(t) < Q * L::base() ==> r.nat_of() < Q && (r.nat_of()
                * L::base()) as int % (Q as int) == L::wide_nat(t) as int % (Q as int),
    {
        let q_limb = Self::modulus_limb();
        let q_inv = Self::q_inv_limb();
        let t_lo = L::from_wide_truncate(t);
        let m = t_lo.wrapping_mul(q_inv);
        let product = L::wide_mul(L::to_wide(m), L::to_wide(q_limb));
        let bits = L::bits();
        proof {
            L::lemma_limb(q_limb, q_inv);
            L::lemma_wide(t);
        }
        let t_hi = L::from_wide_truncate(L::wide_shr(t, bits));
        let prod_lo = L::from_wide_truncate(product);
        let prod_hi = L::from_wide_truncate(L::wide_shr(product, bits));
        let (_sum_lo, carry_lo) = t_lo.overflowing_add(prod_lo);
        let (sum_hi1, carry_hi_a) = t_hi.overflowing_add(prod_hi);
        let carry_word = L::from_u64(if carry_lo { 1u64 } else { 0u64 });
        let (sum_hi, carry_hi_b) = sum_hi1.overflowing_add(carry_word);
        let overflow = carry_hi_a || carry_hi_b;
        let ghost cond = Self::q_ok() && L::wide_nat(t) < Q * L::base();
        let ghost h: int = 0;
        proof {
            L::lemma_limb(m, prod_lo);
            L::lemma_wide(product);
            L::lemma_limb(t_hi, prod_hi);
            L::lemma_limb(carry_word, sum_hi);
            L::lemma_limb(sum_hi1, t_lo);
            lemma_limb_pow2_values();
            if cond {
                let base = L::base() as int;
                let tn = L::wide_nat(t) as int;
                let pn = L::wide_nat(product) as int;
                let mn = m.nat_of() as int;
                let qi = Q as int;
                assert(t_lo.nat_of() as int == tn % base);
                lemma_mont_step(tn, qi, q_inv.nat_of() as int, base, mn);
                lemma_mul_strict_inequality(mn, base, qi);
                lemma_mul_strict_inequality(qi, base, base);
                lemma_mul_is_commutative(qi, base);
                lemma_mul_is_commutative(mn, qi);
                lemma_small_mod((mn * qi) as nat, L::wide_base());
                assert(pn == mn * qi);
                lemma_pow2_pos(L::bits_nat());
                lemma_fundamental_div_mod(tn, base);
                lemma_fundamental_div_mod(pn, base);
                lemma_mod_bound(tn, base);
                lemma_mod_bound(pn, base);
                lemma_div_pos_is_pos(tn, base);
                lemma_div_pos_is_pos(pn, base);
                lemma_mul_is_commutative(base, tn / base);
                lemma_mul_is_commutative(base, pn / base);
                lemma_div_strictly_bounded_pf(tn, base, base);
                lemma_div_strictly_bounded_pf(pn, base, base);
                lemma_small_mod((tn / base) as nat, L::base());
                lemma_small_mod((pn / base) as nat, L::base());
                assert(t_hi.nat_of() as int == tn / base);
                assert(prod_hi.nat_of() as int == pn / base);
                assert(prod_lo.nat_of() as int == pn % base);
                lemma_split_sum(tn / base, tn % base, pn / base, pn % base, base);
                assert(tn == (tn / base) * base + tn % base);
                assert(pn == (pn / base) * base + pn % base);
                h = (tn + pn) / base;
                assert(carry_lo == (tn % base + pn % base >= base));
                assert(carry_word.nat_of() == if carry_lo { 1nat } else { 0nat }) by {
                    lemma_small_mod(if carry_lo { 1nat } else { 0nat }, L::base());
                }
                assert(h == t_hi.nat_of() + prod_hi.nat_of() + carry_word.nat_of());
                assert(h < 2 * qi);
                assert((h * base) % qi == tn % qi);
                lemma_mod_add_once(t_hi.nat_of() as int + prod_hi.nat_of() as int, base);
                lemma_mod_add_once(sum_hi1.nat_of() as int + carry_word.nat_of() as int, base);
                assert(overflow == (h >= base));
                assert(sum_hi.nat_of() as int == h % base) by {
                    lemma_mod_add_once(h, base);
                }
            }
        }
        if overflow {
            let nq = q_limb.wrapping_neg();
            let d = sum_hi.wrapping_add(nq);
            proof {
                if cond {
                    let base = L::base() as int;
                    lemma_mod_sub_once(0 - Q, base);
                    assert(nq.nat_of() as int == base - Q);
                    assert(sum_hi.nat_of() as int == h - base);
                    lemma_mod_add_once(sum_hi.nat_of() as int + (base - Q), base);
                    assert(d.nat_of() as int == h - Q);
                    assert((h - Q) * base == h * base + (- base) * Q) by (nonlinear_arith);
                    lemma_mod_multiples_vanish(- base, h * base, Q as int);
                    lemma_mul_is_commutative(- base, Q as int);
                }
            }
            d
        } else if !sum_hi.lt(q_limb) {
            let d = sum_hi.wrapping_sub(q_limb);
            proof {
                if cond {
                    let base = L::base() as int;
                    assert(sum_hi.nat_of() as int == h);
                    lemma_small_mod((h - Q) as nat, L::base());
                    assert((h - Q) * base == h * base + (- base) * Q) by (nonlinear_arith);
                    lemma_mod_multiples_vanish(- base, h * base, Q as int);
                    lemma_mul_is_commutative(- base, Q as int);
                }
            }
            d
        } else {
            sum_hi
        }
    }
}

proof fn lemma_div_strictly_bounded_pf(x: int, a: int, b: int)
    requires
        a > 0,
        b >= 0,
        0 <= x < b * a,
    ensures
        x / a < b,
{
    lemma_div_by_multiple(b, a);
    lemma_div_by_multiple_is_strongly_ordered(x, b * a, b, a);
}

impl<const Q: u64, L: PrimeFieldLimb> PrimeField<Q, L> {
    /// Montgomery product of two representatives below `Q`.
    pub(crate) fn mul_raw_words(lhs: L, rhs: L) -> (r: L)
        ensures
            Self::q_ok() && lhs.nat_of() < Q && rhs.nat_of() < Q ==> r.nat_of() as int == mont_mul(
                lhs.nat_of() as int,
                rhs.nat_of() as int,
                Self::rinv_spec() as int,
                Q as int,
            ),
    {
        let t = L::wide_mul(L::to_wide(lhs), L::to_wide(rhs));
        let r = Self::montgomery_reduce(t);
        proof {
            if Self::q_ok() && lhs.nat_of() < Q && rhs.nat_of() < Q {
                Self::lemma_params();
                L::lemma_limb(lhs, rhs);
                let x = lhs.nat_of() as int;
                let y = rhs.nat_of() as int;
                let base = L::base() as int;
                assert(x * y < Q * base) by (nonlinear_arith)
                    requires
                        0 <= x < Q,
                        0 <= y < Q,
                        Q < base,
                ;
                assert(Q * base <= base * base) by (nonlinear_arith)
                    requires
                        Q < base,
                        base > 0,
                ;
                lemma_small_mod((x * y) as nat, L::wide_base());
                lemma_mont_unique(r.nat_of() as int, x * y, Q as nat, L::bits_nat());
                lemma_mul_is_associative(x, y, Self::rinv_spec() as int);
            }
        }
        r
    }

    /// Convert a normal integer (as a limb) to Montgomery form.
    pub fn to_montgomery(val: L) -> (r: Self)
        requires
            Self::q_ok(),
        ensures
            r.wf(),
            r.value() == val.nat_of() % (Q as nat),
            r.raw_nat() == ((val.nat_of() % (Q as nat)) * L::base()) % (Q as nat),
    {
        proof {
            Self::lemma_params();
        }
        let q = Self::modulus_limb();
        let v = val.mod_limb(q);
        let r2 = Self::r2_mod_q_u64();
        let t = L::wide_mul(L::to_wide(v), L::wide_from_u64(r2));
        let red = Self::montgomery_reduce(t);
        proof {
            L::lemma_limb(v, red);
            lemma_limb_pow2_values();
            let x = v.nat_of() as int;
            let base = L::base() as int;
            let qi = Q as int;
            let ri = Self::rinv_spec() as int;
            lemma_mod_bound(val.nat_of() as int, qi);
            lemma_small_mod(r2 as nat, L::wide_base());
            assert(x * r2 < qi * base) by (nonlinear_arith)
                requires
                    0 <= x < qi,
                    0 <= r2 < qi,
                    qi < base,
            ;
            assert(qi * base <= base * base) by (nonlinear_arith)
                requires
                    qi < base,
                    base > 0,
            ;
            lemma_small_mod((x * r2) as nat, L::wide_base());
            lemma_mont_unique(red.nat_of() as int, x * r2, Q as nat, L::bits_nat());
            // value = red * ri = x * r2 * ri * ri = x * (R * ri)^2 = x (mod Q)
            let rn = red.nat_of() as int;
            assert(rn == (x * r2 * ri) % qi) by {
                lemma_mul_is_associative(x, r2 as int, ri);
            }
            lemma_to_mont_value(x, r2 as int, rn, qi, base, ri);
            lemma_to_mont_raw(x, r2 as int, rn, qi, base, ri);
            lemma_mod_twice(val.nat_of() as int, qi);
        }
        PrimeField { val: red }
    }

    /// Convert from Montgomery form back to the canonical value as a limb.
    pub fn from_montgomery(self) -> (r: L)
        requires
            self.wf(),
        ensures
            r.nat_of() == self.value(),
            r.nat_of() == (self.raw_nat() * Self::rinv_spec()) % (Q as nat),
    {
        let t = L::to_wide(self.val);
        let r = Self::montgomery_reduce(t);
        proof {
            Self::lemma_params();
            L::lemma_limb(self.val, r);
            lemma_mul_strict_inequality(self.val.nat_of() as int, Q as int, L::base() as int);
            lemma_mul_strict_inequality(Q as int, L::base() as int, L::base() as int);
            assert(self.val.nat_of() < Q * L::base()) by (nonlinear_arith)
                requires self.val.nat_of() < Q, L::base() >= 1;
            lemma_mont_unique(r.nat_of() as int, self.val.nat_of() as int, Q as nat, L::bits_nat());
        }
        r
    }

    /// Wrap a value already in Montgomery form (not checked against `Q`).
    pub fn from_raw(val: L) -> (r: Self)
        requires
            Self::q_ok(),
        ensures
            r.raw_nat() == val.nat_of(),
            r.wf() <==> val.nat_of() < Q,
    {
        PrimeField { val }
    }

    /// Whether the stored representative is below `Q`.
    pub fn is_valid(&self) -> (b: bool)
        requires
            Self::q_ok(),
        ensures
            b == self.wf(),
    {
        let q = Self::modulus_limb();
        self.val.lt(q)
    }

    /// The stored Montgomery representative.
    pub fn raw(&self) -> (r: L)
        ensures
            r.nat_of() == self.raw_nat(),
    {
        self.val
    }

    fn add_total(a: &Self, b: &Self) -> (r: Self)
        ensures
            a.wf() && b.wf() ==> r == <Self as Ring>::add_spec(*a, *b),
    {
        let r = PrimeField { val: Self::add_raw_words(a.val, b.val) };
        proof {
            if a.wf() && b.wf() {
                Self::lemma_params();
                lemma_mod_bound((a.val.nat_of() + b.val.nat_of()) as int, Q as int);
                Self::lemma_from_rep((a.val.nat_of() + b.val.nat_of()) as nat % (Q as nat));
                Self::lemma_eq_by_raw(r, <Self as Ring>::add_spec(*a, *b));
            }
        }
        r
    }

    fn sub_total(a: &Self, b: &Self) -> (r: Self)
        ensures
            a.wf() && b.wf() ==> r == <Self as Ring>::sub_spec(*a, *b),
    {
        let r = PrimeField { val: Self::sub_raw_words(a.val, b.val) };
        proof {
            if a.wf() && b.wf() {
                Self::lemma_params();
                lemma_mod_bound(a.val.nat_of() - b.val.nat_of(), Q as int);
                Self::lemma_from_rep(((a.val.nat_of() - b.val.nat_of()) % (Q as int)) as nat);
                Self::lemma_eq_by_raw(r, <Self as Ring>::sub_spec(*a, *b));
            }
        }
        r
    }

    fn mul_total(a: &Self, b: &Self) -> (r: Self)
        ensures
            a.wf() && b.wf() ==> r == <Self as Ring>::mul_spec(*a, *b),
    {
        let r = PrimeField { val: Self::mul_raw_words(a.val, b.val) };
        proof {
            if a.wf() && b.wf() {
                Self::lemma_params();
                let x = a.val.nat_of() as int;
                let y = b.val.nat_of() as int;
                lemma_mont_ring(x, y, y, Q as int, Self::rinv_spec() as int, L::base() as int);
                Self::lemma_from_rep(mont_mul(x, y, Self::rinv_spec() as int, Q as int) as nat);
                Self::lemma_eq_by_raw(r, <Self as Ring>::mul_spec(*a, *b));
            }
        }
        r
    }

    fn neg_total(a: &Self) -> (r: Self)
        ensures
            a.wf() ==> r == <Self as Ring>::neg_spec(*a),
    {
        let z = L::zero();
        if !z.lt(a.val) {
            proof {
                if a.wf() {
                    Self::lemma_params();
                    lemma_mod_self_0(Q as int);
                    Self::lemma_from_rep(0);
                    Self::lemma_eq_by_raw(*a, <Self as Ring>::neg_spec(*a));
                }
            }
            *a
        } else {
            let q = Self::modulus_limb();
            let r = PrimeField { val: q.wrapping_sub(a.val) };
            proof {
                if a.wf() {
                    Self::lemma_params();
                    L::lemma_limb(a.val, q);
                    lemma_small_mod((Q - a.val.nat_of()) as nat, L::base());
                    lemma_small_mod((Q - a.val.nat_of()) as nat, Q as nat);
                    Self::lemma_from_rep((Q - a.val.nat_of()) as nat);
                    Self::lemma_eq_by_raw(r, <Self as Ring>::neg_spec(*a));
                }
            }
            r
        }
    }

    fn eq_total(a: &Self, b: &Self) -> (r: bool)
        ensures
            r == (*a == *b),
    {
        let r = !a.val.lt(b.val) && !b.val.lt(a.val);
        proof {
            L::lemma_limb(a.val, b.val);
        }
        r
    }

    /// Facts about the operations on valid elements.
    proof fn lemma_ops(a: Self, b: Self, c: Self)
        requires
            a.wf(),
            b.wf(),
            c.wf(),
        ensures
            <Self as Ring>::add_spec(a, b).raw_nat() as int == (a.raw_nat() as int + b.raw_nat() as int) % (Q as int),
            <Self as Ring>::sub_spec(a, b).raw_nat() as int == (a.raw_nat() - b.raw_nat()) % (Q as int),
            <Self as Ring>::mul_spec(a, b).raw_nat() as int == mont_mul(
                a.raw_nat() as int,
                b.raw_nat() as int,
                Self::rinv_spec() as int,
                Q as int,
            ),
            <Self as Ring>::neg_spec(a).raw_nat() as int == (Q - a.raw_nat()) % (Q as int),
            <Self as Ring>::add_spec(a, b).wf(),
            <Self as Ring>::sub_spec(a, b).wf(),
            <Self as Ring>::mul_spec(a, b).wf(),
            <Self as Ring>::neg_spec(a).wf(),
    {
        Self::lemma_params();
        let x = a.raw_nat() as int;
        let y = b.raw_nat() as int;
        let qi = Q as int;
        lemma_mod_ring_laws(x, y, y, qi);
        lemma_mont_ring(x, y, y, qi, Self::rinv_spec() as int, L::base() as int);
        Self::lemma_from_rep(((x + y) % qi) as nat);
        Self::lemma_from_rep(((x - y) % qi) as nat);
        Self::lemma_from_rep(mont_mul(x, y, Self::rinv_spec() as int, qi) as nat);
        Self::lemma_from_rep(((qi - x) % qi) as nat);
    }
}

impl<const Q: u64, L: PrimeFieldLimb> Ring for PrimeField<Q, L> {
    open spec fn params_ok() -> bool {
        Self::q_ok()
    }

    closed spec fn wf(self) -> bool {
        Self::q_ok() && self.val.nat_of() < Q
    }

    closed spec fn zero_spec() -> Self {
        Self::from_rep(0)
    }

    closed spec fn one_spec() -> Self {
        Self::from_rep(L::base() % (Q as nat))
    }

    closed spec fn add_spec(a: Self, b: Self) -> Self {
        Self::from_rep(((a.val.nat_of() + b.val.nat_of()) % (Q as nat)) as nat)
    }

    closed spec fn sub_spec(a: Self, b: Self) -> Self {
        Self::from_rep(((a.val.nat_of() - b.val.nat_of()) % (Q as int)) as nat)
    }

    closed spec fn mul_spec(a: Self, b: Self) -> Self {
        Self::from_rep(
            mont_mul(a.val.nat_of() as int, b.val.nat_of() as int, Self::rinv_spec() as int, Q as int)
                as nat,
        )
    }

    closed spec fn neg_spec(a: Self) -> Self {
        Self::from_rep(((Q - a.val.nat_of()) % (Q as int)) as nat)
    }

    proof fn lemma_wf_params(a: Self) {
    }

    proof fn lemma_identities_wf() {
        Self::lemma_params();
        Self::lemma_from_rep(0);
        lemma_mod_bound(L::base() as int, Q as int);
        Self::lemma_from_rep(L::base() % (Q as nat));
    }

    proof fn lemma_closed(a: Self, b: Self) {
        Self::lemma_ops(a, b, b);
    }

    proof fn lemma_add_laws(a: Self, b: Self, c: Self) {
        Self::lemma_params();
        Self::lemma_identities_wf();
        let x = a.raw_nat() as int;
        let y = b.raw_nat() as int;
        let z = c.raw_nat() as int;
        lemma_mod_ring_laws(x, y, z, Q as int);
        Self::lemma_ops(a, b, c);
        Self::lemma_ops(b, a, c);
        Self::lemma_ops(b, c, c);
        Self::lemma_ops(Self::add_spec(a, b), c, c);
        Self::lemma_ops(a, Self::add_spec(b, c), c);
        Self::lemma_ops(a, Self::zero_spec(), c);
        Self::lemma_ops(a, Self::neg_spec(a), c);
        Self::lemma_ops(a, Self::neg_spec(b), c);
        Self::lemma_eq_by_raw(Self::add_spec(a, b), Self::add_spec(b, a));
        Self::lemma_eq_by_raw(
            Self::add_spec(Self::add_spec(a, b), c),
            Self::add_spec(a, Self::add_spec(b, c)),
        );
        Self::lemma_eq_by_raw(Self::add_spec(a, Self::zero_spec()), a);
        Self::lemma_eq_by_raw(Self::add_spec(a, Self::neg_spec(a)), Self::zero_spec());
        Self::lemma_eq_by_raw(Self::sub_spec(a, b), Self::add_spec(a, Self::neg_spec(b)));
    }

    proof fn lemma_mul_laws(a: Self, b: Self, c: Self) {
        Self::lemma_params();
        Self::lemma_identities_wf();
        let x = a.raw_nat() as int;
        let y = b.raw_nat() as int;
        let z = c.raw_nat() as int;
        let ri = Self::rinv_spec() as int;
        lemma_mont_ring(x, y, z, Q as int, ri, L::base() as int);
        lemma_mont_ring(x, 0, 0, Q as int, ri, L::base() as int);
        Self::lemma_ops(a, b, c);
        Self::lemma_ops(b, a, c);
        Self::lemma_ops(b, c, c);
        Self::lemma_ops(a, c, c);
        Self::lemma_ops(Self::mul_spec(a, b), c, c);
        Self::lemma_ops(a, Self::mul_spec(b, c), c);
        Self::lemma_from_rep(0);
        lemma_mod_bound(L::base() as int, Q as int);
        Self::lemma_from_rep(L::base() % (Q as nat));
        Self::lemma_ops(a, Self::one_spec(), c);
        Self::lemma_ops(a, Self::zero_spec(), c);
        Self::lemma_ops(a, Self::add_spec(b, c), c);
        Self::lemma_ops(Self::mul_spec(a, b), Self::mul_spec(a, c), c);
        Self::lemma_eq_by_raw(Self::mul_spec(a, b), Self::mul_spec(b, a));
        Self::lemma_eq_by_raw(
            Self::mul_spec(Self::mul_spec(a, b), c),
            Self::mul_spec(a, Self::mul_spec(b, c)),
        );
        Self::lemma_eq_by_raw(Self::mul_spec(a, Self::one_spec()), a);
        Self::lemma_eq_by_raw(Self::mul_spec(a, Self::zero_spec()), Self::zero_spec());
        Self::lemma_eq_by_raw(
            Self::mul_spec(a, Self::add_spec(b, c)),
            Self::add_spec(Self::mul_spec(a, b), Self::mul_spec(a, c)),
        );
    }

    fn zero() -> (r: Self) {
        proof {
            Self::lemma_identities_wf();
        }
        let z = L::zero();
        proof {
            Self::lemma_params();
            L::lemma_limb(z, L::from_nat(0));
            L::lemma_from_nat(0);
        }
        PrimeField { val: z }
    }

    fn one() -> (r: Self) {
        proof {
            Self::lemma_identities_wf();
            Self::lemma_params();
        }
        let r = Self::r_mod_q_u64();
        let v = L::from_u64(r);
        proof {
            lemma_mod_bound(L::base() as int, Q as int);
            lemma_small_mod(r as nat, L::base());
            L::lemma_from_nat(r as nat);
            L::lemma_limb(v, L::from_nat(r as nat));
        }
        PrimeField { val: v }
    }

    fn is_zero(&self) -> (b: bool) {
        let z = Self::zero();
        Self::eq_total(self, &z)
    }

    fn is_one(&self) -> (b: bool) {
        let o = Self::one();
        Self::eq_total(self, &o)
    }

    fn add_ref(a: &Self, b: &Self) -> (r: Self) {
        proof {
            Self::lemma_closed(*a, *b);
        }
        Self::add_total(a, b)
    }

    fn sub_ref(a: &Self, b: &Self) -> (r: Self) {
        proof {
            Self::lemma_closed(*a, *b);
        }
        Self::sub_total(a, b)
    }

    fn mul_ref(a: &Self, b: &Self) -> (r: Self) {
        proof {
            Self::lemma_closed(*a, *b);
        }
        Self::mul_total(a, b)
    }

    fn neg_ref(a: &Self) -> (r: Self) {
        proof {
            Self::lemma_closed(*a, *a);
        }
        Self::neg_total(a)
    }
}

impl<const Q: u64, L: PrimeFieldLimb> IntegerRing for PrimeField<Q, L> {
    open spec fn modulus_spec() -> nat {
        Q as nat
    }

    closed spec fn value(self) -> nat {
        ((self.val.nat_of() * Self::rinv_spec()) % (Q as nat)) as nat
    }

    proof fn lemma_value(a: Self, b: Self) {
        Self::lemma_params();
        let x = a.raw_nat() as int;
        let y = b.raw_nat() as int;
        let qi = Q as int;
        let ri = Self::rinv_spec() as int;
        Self::lemma_ops(a, b, b);
        lemma_mont_values(x, y, qi, ri, L::base() as int);
        lemma_mod_bound(x * ri, qi);
        lemma_mod_bound(y * ri, qi);
        if a.value() == b.value() {
            Self::lemma_eq_by_raw(a, b);
        }
    }

    proof fn lemma_identity_values() {
        Self::lemma_params();
        Self::lemma_identities_wf();
        Self::lemma_from_rep(0);
        lemma_mod_bound(L::base() as int, Q as int);
        Self::lemma_from_rep(L::base() % (Q as nat));
        let ri = Self::rinv_spec() as int;
        lemma_mul_mod_noop_left(L::base() as int, ri, Q as int);
        assert(0 * ri == 0);
        lemma_small_mod(0, Q as nat);
    }

    fn modulus() -> (m: u64) {
        proof {
            lemma_small_mod(Q as nat, pow2_64());
        }
        Q
    }

    fn from_u64(val: u64) -> (r: Self) {
        proof {
            Self::lemma_params();
            lemma_mod_bound(val as int, Q as int);
            lemma_small_mod((val % Q) as nat, L::base());
        }
        let l = L::from_u64(val % Q);
        proof {
            lemma_mod_twice(val as int, Q as int);
        }
        Self::to_montgomery(l)
    }

    fn to_u64(&self) -> (r: u64) {
        self.from_montgomery().to_u64()
    }

    fn reduce(&self) -> (r: Self) {
        *self
    }
}


impl<const Q: u64, L: PrimeFieldLimb> Field for PrimeField<Q, L> {
    open spec fn is_field() -> bool {
        is_prime(Q as nat)
    }

    fn inv(&self) -> (r: Self) {
        proof {
            Self::lemma_identities_wf();
            Self::lemma_value(*self, Self::zero_spec());
            Self::lemma_identity_values();
        }
        let v = self.to_u64();
        if gcd(v, Q) == 1 {
            let x = mod_inv_u64(v, Q);
            let r = Self::from_u64(x);
            proof {
                lemma_small_mod(x as nat, Q as nat);
                Self::lemma_value(*self, r);
                Self::lemma_closed(*self, r);
                Self::lemma_value(Self::mul_spec(*self, r), Self::one_spec());
                lemma_small_mod(1, Q as nat);
            }
            r
        } else {
            proof {
                if is_prime(Q as nat) {
                    lemma_gcd_prime(v as nat, Q as nat);
                }
            }
            self.pow(Q - 2)
        }
    }
}


impl<const Q: u64, L: PrimeFieldLimb> LargeCanonicalRing for PrimeField<Q, L> {
    type Canonical = u64;

    open spec fn canonical_modulus() -> nat {
        Self::modulus_spec()
    }

    open spec fn canonical_value(self) -> nat {
        self.value()
    }

    proof fn lemma_canonical(a: Self, b: Self) {
        Self::lemma_value(a, b);
    }

    proof fn lemma_modulus_fits() {
    }

    proof fn lemma_canonical_identities() {
        Self::lemma_identity_values();
    }

    fn modulus_canonical() -> (m: u64) {
        Self::modulus()
    }

    fn from_small_u64(v: u64) -> (r: Self) {
        Self::from_u64(v)
    }

    fn from_canonical(c: &u64) -> (r: Self) {
        Self::from_u64(*c)
    }

    fn to_canonical(&self) -> (c: u64) {
        proof {
            Self::lemma_value(*self, *self);
        }
        self.to_u64()
    }

    fn try_to_u64(&self) -> (r: Option<u64>) {
        proof {
            Self::lemma_value(*self, *self);
        }
        Some(self.to_u64())
    }

    fn try_to_u128(&self) -> (r: Option<u128>) {
        proof {
            Self::lemma_value(*self, *self);
        }
        Some(self.to_u64() as u128)
    }
}
impl<const Q: u64, L: PrimeFieldLimb> PrimeField<Q, L> {
    /// `dst[i] += src[i]` for every index.
    pub fn add_assign_slice(dst: &mut [Self], src: &[Self])
        requires
            old(dst)@.len() == src@.len(),
            seq_wf(old(dst)@),
            seq_wf(src@),
        ensures
            final(dst)@.len() == old(dst)@.len(),
            forall|i: int|
                0 <= i < src@.len() ==> #[trigger] final(dst)@[i] == <Self as Ring>::add_spec(
                    old(dst)@[i],
                    src@[i],
                ),
            seq_wf(final(dst)@),
    {
        ring_add_assign_slice(dst, src)
    }

    /// `dst[i] -= src[i]` for every index.
    pub fn sub_assign_slice(dst: &mut [Self], src: &[Self])
        requires
            old(dst)@.len() == src@.len(),
            seq_wf(old(dst)@),
            seq_wf(src@),
        ensures
            final(dst)@.len() == old(dst)@.len(),
            forall|i: int|
                0 <= i < src@.len() ==> #[trigger] final(dst)@[i] == <Self as Ring>::sub_spec(
                    old(dst)@[i],
                    src@[i],
                ),
            seq_wf(final(dst)@),
    {
        ring_sub_assign_slice(dst, src)
    }

    /// `dst[i] *= scalar` for every index.
    pub fn scalar_mul_slice(dst: &mut [Self], scalar: &Self)
        requires
            seq_wf(old(dst)@),
            scalar.wf(),
        ensures
            final(dst)@.len() == old(dst)@.len(),
            forall|i: int|
                0 <= i < old(dst)@.len() ==> #[trigger] final(dst)@[i] == <Self as Ring>::mul_spec(
                    old(dst)@[i],
                    *scalar,
                ),
            seq_wf(final(dst)@),
    {
        ring_scalar_mul_slice(dst, scalar)
    }

    /// `dst[i] *= rhs[i]` for every index.
    pub fn pointwise_mul_assign_slice(dst: &mut [Self], rhs: &[Self])
        requires
            old(dst)@.len() == rhs@.len(),
            seq_wf(old(dst)@),
            seq_wf(rhs@),
        ensures
            final(dst)@.len() == old(dst)@.len(),
            forall|i: int|
                0 <= i < rhs@.len() ==> #[trigger] final(dst)@[i] == <Self as Ring>::mul_spec(
                    old(dst)@[i],
                    rhs@[i],
                ),
            seq_wf(final(dst)@),
    {
        ring_pointwise_mul_assign_slice(dst, rhs)
    }

    /// `sum_i lhs[i] * rhs[i]`.
    pub fn dot_product(lhs: &[Self], rhs: &[Self]) -> (r: Self)
        requires
            lhs@.len() == rhs@.len(),
            seq_wf(lhs@),
            seq_wf(rhs@),
            <Self as Ring>::params_ok(),
        ensures
            r == dot_spec(lhs@, rhs@),
            r.wf(),
    {
        ring_dot_product(lhs, rhs)
    }

    /// `dst[i] += src[i] * scalar` for every index.
    pub fn add_assign_scaled_slice(dst: &mut [Self], src: &[Self], scalar: &Self)
        requires
            old(dst)@.len() == src@.len(),
            seq_wf(old(dst)@),
            seq_wf(src@),
            scalar.wf(),
        ensures
            final(dst)@.len() == old(dst)@.len(),
            forall|i: int|
                0 <= i < src@.len() ==> #[trigger] final(dst)@[i] == <Self as Ring>::add_spec(
                    old(dst)@[i],
                    <Self as Ring>::mul_spec(src@[i], *scalar),
                ),
            seq_wf(final(dst)@),
    {
        ring_add_assign_scaled_slice(dst, src, scalar)
    }

    /// `self^exp` by repeated squaring.
    pub fn pow(&self, exp: u64) -> (r: Self)
        requires
            self.wf(),
        ensures
            r == pow_spec(*self, exp as nat),
            r.wf(),
    {
        ring_pow(self, exp)
    }
}

impl<const Q: u64, L: PrimeFieldLimb> core::ops::Add for PrimeField<Q, L> {
    type Output = Self;

    fn add(self, rhs: Self) -> (r: Self) {
        Self::add_total(&self, &rhs)
    }
}

impl<const Q: u64, L: PrimeFieldLimb> vstd::std_specs::ops::AddSpecImpl for PrimeField<Q, L> {
    open spec fn obeys_add_spec() -> bool {
        true
    }

    open spec fn add_req(self, rhs: Self) -> bool {
        self.wf() && rhs.wf()
    }

    open spec fn add_spec(self, rhs: Self) -> Self {
        <Self as Ring>::add_spec(self, rhs)
    }
}

impl<'a, const Q: u64, L: PrimeFieldLimb> core::ops::Add<&'a PrimeField<Q, L>> for PrimeField<Q, L> {
    type Output = Self;

    fn add(self, rhs: &'a PrimeField<Q, L>) -> Self {
        Self::add_total(&self, rhs)
    }
}

impl<'a, const Q: u64, L: PrimeFieldLimb> vstd::std_specs::ops::AddSpecImpl<&'a PrimeField<Q, L>> for PrimeField<Q, L> {
    open spec fn obeys_add_spec() -> bool {
        true
    }

    open spec fn add_req(self, rhs: &'a PrimeField<Q, L>) -> bool {
        self.wf() && rhs.wf()
    }

    open spec fn add_spec(self, rhs: &'a PrimeField<Q, L>) -> Self {
        <Self as Ring>::add_spec(self, *rhs)
    }
}

impl<const Q: u64, L: PrimeFieldLimb> core::ops::AddAssign for PrimeField<Q, L> {
    fn add_assign(&mut self, rhs: Self)
        ensures
            old(self).wf() && rhs.wf() ==> *final(self) == <Self as Ring>::add_spec(*old(self), rhs),
    {
        *self = Self::add_total(self, &rhs);
    }
}

impl<'a, const Q: u64, L: PrimeFieldLimb> core::ops::AddAssign<&'a PrimeField<Q, L>> for PrimeField<Q, L> {
    fn add_assign(&mut self, rhs: &'a PrimeField<Q, L>)
        ensures
            old(self).wf() && rhs.wf() ==> *final(self) == <Self as Ring>::add_spec(*old(self), *rhs),
    {
        *self = Self::add_total(self, rhs);
    }
}

impl<'a, const Q: u64, L: PrimeFieldLimb> core::ops::Add<&'a PrimeField<Q, L>> for &'a PrimeField<Q, L> {
    type Output = PrimeField<Q, L>;

    fn add(self, rhs: &'a PrimeField<Q, L>) -> PrimeField<Q, L> {
        PrimeField::<Q, L>::add_total(self, rhs)
    }
}

impl<'a, const Q: u64, L: PrimeFieldLimb> vstd::std_specs::ops::AddSpecImpl<&'a PrimeField<Q, L>> for &'a PrimeField<Q, L> {
    open spec fn obeys_add_spec() -> bool {
        true
    }

    open spec fn add_req(self, rhs: &'a PrimeField<Q, L>) -> bool {
        self.wf() && rhs.wf()
    }

    open spec fn add_spec(self, rhs: &'a PrimeField<Q, L>) -> PrimeField<Q, L> {
        <PrimeField<Q, L> as Ring>::add_spec(*self, *rhs)
    }
}

impl<'a, const Q: u64, L: PrimeFieldLimb> core::ops::Add<PrimeField<Q, L>> for &'a PrimeField<Q, L> {
    type Output = PrimeField<Q, L>;

    fn add(self, rhs: PrimeField<Q, L>) -> PrimeField<Q, L> {
        PrimeField::<Q, L>::add_total(self, &rhs)
    }
}

impl<'a, const Q: u64, L: PrimeFieldLimb> vstd::std_specs::ops::AddSpecImpl<PrimeField<Q, L>> for &'a PrimeField<Q, L> {
    open spec fn obeys_add_spec() -> bool {
        true
    }

    open spec fn add_req(self, rhs: PrimeField<Q, L>) -> bool {
        self.wf() && rhs.wf()
    }

    open spec fn add_spec(self, rhs: PrimeField<Q, L>) -> PrimeField<Q, L> {
        <PrimeField<Q, L> as Ring>::add_spec(*self, rhs)
    }
}

impl<const Q: u64, L: PrimeFieldLimb> core::ops::Sub for PrimeField<Q, L> {
    type Output = Self;

    fn sub(self, rhs: Self) -> (r: Self) {
        Self::sub_total(&self, &rhs)
    }
}

impl<const Q: u64, L: PrimeFieldLimb> vstd::std_specs::ops::SubSpecImpl for PrimeField<Q, L> {
    open spec fn obeys_sub_spec() -> bool {
        true
    }

    open spec fn sub_req(self, rhs: Self) -> bool {
        self.wf() && rhs.wf()
    }

    open spec fn sub_spec(self, rhs: Self) -> Self {
        <Self as Ring>::sub_spec(self, rhs)
    }
}

impl<'a, const Q: u64, L: PrimeFieldLimb> core::ops::Sub<&'a PrimeField<Q, L>> for PrimeField<Q, L> {
    type Output = Self;

    fn sub(self, rhs: &'a PrimeField<Q, L>) -> Self {
        Self::sub_total(&self, rhs)
    }
}

impl<'a, const Q: u64, L: PrimeFieldLimb> vstd::std_specs::ops::SubSpecImpl<&'a PrimeField<Q, L>> for PrimeField<Q, L> {
    open spec fn obeys_sub_spec() -> bool {
        true
    }

    open spec fn sub_req(self, rhs: &'a PrimeField<Q, L>) -> bool {
        self.wf() && rhs.wf()
    }

    open spec fn sub_spec(self, rhs: &'a PrimeField<Q, L>) -> Self {
        <Self as Ring>::sub_spec(self, *rhs)
    }
}

impl<const Q: u64, L: PrimeFieldLimb> core::ops::SubAssign for PrimeField<Q, L> {
    fn sub_assign(&mut self, rhs: Self)
        ensures
            old(self).wf() && rhs.wf() ==> *final(self) == <Self as Ring>::sub_spec(*old(self), rhs),
    {
        *self = Self::sub_total(self, &rhs);
    }
}

impl<'a, const Q: u64, L: PrimeFieldLimb> core::ops::SubAssign<&'a PrimeField<Q, L>> for PrimeField<Q, L> {
    fn sub_assign(&mut self, rhs: &'a PrimeField<Q, L>)
        ensures
            old(self).wf() && rhs.wf() ==> *final(self) == <Self as Ring>::sub_spec(*old(self), *rhs),
    {
        *self = Self::sub_total(self, rhs);
    }
}

impl<'a, const Q: u64, L: PrimeFieldLimb> core::ops::Sub<&'a PrimeField<Q, L>> for &'a PrimeField<Q, L> {
    type Output = PrimeField<Q, L>;

    fn sub(self, rhs: &'a PrimeField<Q, L>) -> PrimeField<Q, L> {
        PrimeField::<Q, L>::sub_total(self, rhs)
    }
}

impl<'a, const Q: u64, L: PrimeFieldLimb> vstd::std_specs::ops::SubSpecImpl<&'a PrimeField<Q, L>> for &'a PrimeField<Q, L> {
    open spec fn obeys_sub_spec() -> bool {
        true
    }

    open spec fn sub_req(self, rhs: &'a PrimeField<Q, L>) -> bool {
        self.wf() && rhs.wf()
    }

    open spec fn sub_spec(self, rhs: &'a PrimeField<Q, L>) -> PrimeField<Q, L> {
        <PrimeField<Q, L> as Ring>::sub_spec(*self, *rhs)
    }
}

impl<'a, const Q: u64, L: PrimeFieldLimb> core::ops::Sub<PrimeField<Q, L>> for &'a PrimeField<Q, L> {
    type Output = PrimeField<Q, L>;

    fn sub(self, rhs: PrimeField<Q, L>) -> PrimeField<Q, L> {
        PrimeField::<Q, L>::sub_total(self, &rhs)
    }
}

impl<'a, const Q: u64, L: PrimeFieldLimb> vstd::std_specs::ops::SubSpecImpl<PrimeField<Q, L>> for &'a PrimeField<Q, L> {
    open spec fn obeys_sub_spec() -> bool {
        true
    }

    open spec fn sub_req(self, rhs: PrimeField<Q, L>) -> bool {
        self.wf() && rhs.wf()
    }

    open spec fn sub_spec(self, rhs: PrimeField<Q, L>) -> PrimeField<Q, L> {
        <PrimeField<Q, L> as Ring>::sub_spec(*self, rhs)
    }
}

impl<const Q: u64, L: PrimeFieldLimb> core::ops::Mul for PrimeField<Q, L> {
    type Output = Self;

    fn mul(self, rhs: Self) -> (r: Self) {
        Self::mul_total(&self, &rhs)
    }
}

impl<const Q: u64, L: PrimeFieldLimb> vstd::std_specs::ops::MulSpecImpl for PrimeField<Q, L> {
    open spec fn obeys_mul_spec() -> bool {
        true
    }

    open spec fn mul_req(self, rhs: Self) -> bool {
        self.wf() && rhs.wf()
    }

    open spec fn mul_spec(self, rhs: Self) -> Self {
        <Self as Ring>::mul_spec(self, rhs)
    }
}

impl<'a, const Q: u64, L: PrimeFieldLimb> core::ops::Mul<&'a PrimeField<Q, L>> for PrimeField<Q, L> {
    type Output = Self;

    fn mul(self, rhs: &'a PrimeField<Q, L>) -> Self {
        Self::mul_total(&self, rhs)
    }
}

impl<'a, const Q: u64, L: PrimeFieldLimb> vstd::std_specs::ops::MulSpecImpl<&'a PrimeField<Q, L>> for PrimeField<Q, L> {
    open spec fn obeys_mul_spec() -> bool {
        true
    }

    open spec fn mul_req(self, rhs: &'a PrimeField<Q, L>) -> bool {
        self.wf() && rhs.wf()
    }

    open spec fn mul_spec(self, rhs: &'a PrimeField<Q, L>) -> Self {
        <Self as Ring>::mul_spec(self, *rhs)
    }
}

impl<const Q: u64, L: PrimeFieldLimb> core::ops::MulAssign for PrimeField<Q, L> {
    fn mul_assign(&mut self, rhs: Self)
        ensures
            old(self).wf() && rhs.wf() ==> *final(self) == <Self as Ring>::mul_spec(*old(self), rhs),
    {
        *self = Self::mul_total(self, &rhs);
    }
}

impl<'a, const Q: u64, L: PrimeFieldLimb> core::ops::MulAssign<&'a PrimeField<Q, L>> for PrimeField<Q, L> {
    fn mul_assign(&mut self, rhs: &'a PrimeField<Q, L>)
        ensures
            old(self).wf() && rhs.wf() ==> *final(self) == <Self as Ring>::mul_spec(*old(self), *rhs),
    {
        *self = Self::mul_total(self, rhs);
    }
}

impl<'a, const Q: u64, L: PrimeFieldLimb> core::ops::Mul<&'a PrimeField<Q, L>> for &'a PrimeField<Q, L> {
    type Output = PrimeField<Q, L>;

    fn mul(self, rhs: &'a PrimeField<Q, L>) -> PrimeField<Q, L> {
        PrimeField::<Q, L>::mul_total(self, rhs)
    }
}

impl<'a, const Q: u64, L: PrimeFieldLimb> vstd::std_specs::ops::MulSpecImpl<&'a PrimeField<Q, L>> for &'a PrimeField<Q, L> {
    open spec fn obeys_mul_spec() -> bool {
        true
    }

    open spec fn mul_req(self, rhs: &'a PrimeField<Q, L>) -> bool {
        self.wf() && rhs.wf()
    }

    open spec fn mul_spec(self, rhs: &'a PrimeField<Q, L>) -> PrimeField<Q, L> {
        <PrimeField<Q, L> as Ring>::mul_spec(*self, *rhs)
    }
}

impl<'a, const Q: u64, L: PrimeFieldLimb> core::ops::Mul<PrimeField<Q, L>> for &'a PrimeField<Q, L> {
    type Output = PrimeField<Q, L>;

    fn mul(self, rhs: PrimeField<Q, L>) -> PrimeField<Q, L> {
        PrimeField::<Q, L>::mul_total(self, &rhs)
    }
}

impl<'a, const Q: u64, L: PrimeFieldLimb> vstd::std_specs::ops::MulSpecImpl<PrimeField<Q, L>> for &'a PrimeField<Q, L> {
    open spec fn obeys_mul_spec() -> bool {
        true
    }

    open spec fn mul_req(self, rhs: PrimeField<Q, L>) -> bool {
        self.wf() && rhs.wf()
    }

    open spec fn mul_spec(self, rhs: PrimeField<Q, L>) -> PrimeField<Q, L> {
        <PrimeField<Q, L> as Ring>::mul_spec(*self, rhs)
    }
}

impl<const Q: u64, L: PrimeFieldLimb> core::ops::Neg for PrimeField<Q, L> {
    type Output = Self;

    fn neg(self) -> (r: Self) {
        Self::neg_total(&self)
    }
}

impl<const Q: u64, L: PrimeFieldLimb> vstd::std_specs::ops::NegSpecImpl for PrimeField<Q, L> {
    open spec fn obeys_neg_spec() -> bool {
        true
    }

    open spec fn neg_req(self) -> bool {
        self.wf()
    }

    open spec fn neg_spec(self) -> Self {
        <Self as Ring>::neg_spec(self)
    }
}

impl<const Q: u64, L: PrimeFieldLimb> PartialEq for PrimeField<Q, L> {
    fn eq(&self, other: &Self) -> (r: bool) {
        Self::eq_total(self, other)
    }
}

impl<const Q: u64, L: PrimeFieldLimb> vstd::std_specs::cmp::PartialEqSpecImpl for PrimeField<Q, L> {
    open spec fn obeys_eq_spec() -> bool {
        true
    }

    open spec fn eq_spec(&self, other: &Self) -> bool {
        *self == *other
    }
}

impl<const Q: u64, L: PrimeFieldLimb> Eq for PrimeField<Q, L> {}

} // verus!
