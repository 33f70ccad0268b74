//! [`UintLimb`] — the word types usable as the arithmetic backend of [`Zm`](super::zm::Zm).
//!
//! Only implemented for `u8`, `u16`, `u32`, and `u64`.
use crate::arith::modular::{
    lemma_limb_pow2_values, lemma_mod_add_once, lemma_mod_sub_once, lemma_wide_from_u64_u128,
    lemma_wide_from_u64_u16, lemma_wide_from_u64_u32, lemma_wide_from_u64_u64,
};
use vstd::arithmetic::power2::pow2;
use vstd::bits::{lemma_u128_shr_is_div, lemma_u16_shr_is_div, lemma_u32_shr_is_div, lemma_u64_shr_is_div};
use vstd::prelude::*;
use vstd::std_specs::bits::{u16_leading_zeros, u32_leading_zeros, u64_leading_zeros, u8_leading_zeros};

/// Seals [`UintLimb`] so that only the four primitive unsigned integers implement it.
pub mod sealed;

verus! {

/// A word type with the operations the modular backends need, each with its
/// exact arithmetic meaning.
pub trait UintLimb: sealed::Sealed + Sized + Copy {
    /// The next-wider unsigned integer (`u16` for `u8`, ..., `u128` for `u64`).
    type Wide: Copy;

    /// The number of bits of the limb type.
    spec fn bits_nat() -> nat;

    /// `2^bits`.
    spec fn base() -> nat;

    /// `2^(2 * bits)`, the range of the wide type.
    spec fn wide_base() -> nat;

    /// The value of a limb.
    spec fn nat_of(self) -> nat;

    /// The value of a wide word.
    spec fn wide_nat(w: Self::Wide) -> nat;

    /// The limb with value `n mod 2^bits`.
    spec fn from_nat(n: nat) -> Self;

    /// The width facts, the range of limbs, and that a limb is its value.
    proof fn lemma_limb(a: Self, b: Self)
        ensures
            Self::bits_nat() == 8 || Self::bits_nat() == 16 || Self::bits_nat() == 32
                || Self::bits_nat() == 64,
            Self::base() == pow2(Self::bits_nat()),
            Self::wide_base() == Self::base() * Self::base(),
            Self::wide_base() == pow2(2 * Self::bits_nat()),
            a.nat_of() < Self::base(),
            b.nat_of() < Self::base(),
            a.nat_of() == b.nat_of() ==> a == b,
    ;

    /// The range of wide words.
    proof fn lemma_wide(w: Self::Wide)
        ensures
            Self::wide_nat(w) < Self::wide_base(),
    ;

    /// `from_nat` inverts `nat_of` on the limb range.
    proof fn lemma_from_nat(n: nat)
        requires
            n < Self::base(),
        ensures
            Self::from_nat(n).nat_of() == n,
    ;

    /// The number of bits (`8`, `16`, `32` or `64`).
    fn bits() -> (r: u32)
        ensures
            r as nat == Self::bits_nat(),
    ;

    /// The limb `0`.
    fn zero() -> (r: Self)
        ensures
            r.nat_of() == 0,
    ;

    /// The limb `1`.
    fn one() -> (r: Self)
        ensures
            r.nat_of() == 1,
    ;

    /// The largest limb, `2^bits - 1`.
    fn max_value() -> (r: Self)
        ensures
            r.nat_of() == Self::base() - 1,
    ;

    /// `v mod 2^bits` (an `as` cast).
    fn from_u64(v: u64) -> (r: Self)
        ensures
            r.nat_of() == (v as nat) % Self::base(),
    ;

    /// The limb widened to `u64`.
    fn to_u64(self) -> (r: u64)
        ensures
            r as nat == self.nat_of(),
    ;

    /// The limb widened to the wide type.
    fn to_wide(self) -> (r: Self::Wide)
        ensures
            Self::wide_nat(r) == self.nat_of(),
    ;

    /// The low `bits` bits of a wide word.
    fn from_wide_truncate(w: Self::Wide) -> (r: Self)
        ensures
            r.nat_of() == Self::wide_nat(w) % Self::base(),
    ;

    /// `(self + rhs) mod 2^bits`.
    fn wrapping_add(self, rhs: Self) -> (r: Self)
        ensures
            r.nat_of() == (self.nat_of() + rhs.nat_of()) % Self::base(),
    ;

    /// `(self - rhs) mod 2^bits`.
    fn wrapping_sub(self, rhs: Self) -> (r: Self)
        ensures
            r.nat_of() as int == (self.nat_of() - rhs.nat_of()) % (Self::base() as int),
    ;

    /// `(self * rhs) mod 2^bits`.
    fn wrapping_mul(self, rhs: Self) -> (r: Self)
        ensures
            r.nat_of() == (self.nat_of() * rhs.nat_of()) % Self::base(),
    ;

    /// `(self + rhs) mod 2^bits`, with the carry out.
    fn overflowing_add(self, rhs: Self) -> (r: (Self, bool))
        ensures
            r.0.nat_of() == (self.nat_of() + rhs.nat_of()) % Self::base(),
            r.1 == (self.nat_of() + rhs.nat_of() >= Self::base()),
    ;

    /// `(a + b) mod 2^(2 bits)`.
    fn wide_add(a: Self::Wide, b: Self::Wide) -> (r: Self::Wide)
        ensures
            Self::wide_nat(r) == (Self::wide_nat(a) + Self::wide_nat(b)) % Self::wide_base(),
    ;

    /// `(a * b) mod 2^(2 bits)`.
    fn wide_mul(a: Self::Wide, b: Self::Wide) -> (r: Self::Wide)
        ensures
            Self::wide_nat(r) == (Self::wide_nat(a) * Self::wide_nat(b)) % Self::wide_base(),
    ;

    /// `w / 2^shift` for a shift below the wide width.
    fn wide_shr(w: Self::Wide, shift: u32) -> (r: Self::Wide)
        requires
            shift < 2 * Self::bits_nat(),
        ensures
            Self::wide_nat(r) == Self::wide_nat(w) / pow2(shift as nat),
    ;

    /// `v mod 2^(2 bits)` as a wide word.
    fn wide_from_u64(v: u64) -> (r: Self::Wide)
        ensures
            Self::wide_nat(r) == (v as nat) % Self::wide_base(),
    ;

    /// `(-self) mod 2^bits`.
    fn wrapping_neg(self) -> (r: Self)
        ensures
            r.nat_of() as int == (0 - self.nat_of()) % (Self::base() as int),
    ;

    /// `self mod modulus`.
    fn mod_limb(self, modulus: Self) -> (r: Self)
        requires
            modulus.nat_of() > 0,
        ensures
            r.nat_of() == self.nat_of() % modulus.nat_of(),
    ;

    /// `self < rhs`.
    fn lt(self, rhs: Self) -> (r: bool)
        ensures
            r == (self.nat_of() < rhs.nat_of()),
    ;

    /// The number of leading zero bits of the limb.
    spec fn leading_zeros_spec(self) -> nat;

    /// The number of leading zero bits of the limb.
    fn leading_zeros(self) -> (r: u32)
        ensures
            r as nat == self.leading_zeros_spec(),
    ;
}

impl UintLimb for u8 {
    type Wide = u16;

    open spec fn bits_nat() -> nat {
        8
    }

    open spec fn base() -> nat {
        0x100
    }

    open spec fn wide_base() -> nat {
        (0x1_0000) as nat
    }

    open spec fn nat_of(self) -> nat {
        self as nat
    }

    open spec fn wide_nat(w: u16) -> nat {
        w as nat
    }

    open spec fn from_nat(n: nat) -> u8 {
        n as u8
    }

    proof fn lemma_limb(a: u8, b: u8) {
        lemma_limb_pow2_values();
    }

    proof fn lemma_wide(w: u16) {
        lemma_limb_pow2_values();
    }

    proof fn lemma_from_nat(n: nat) {
    }

    fn bits() -> (r: u32) {
        8
    }

    fn zero() -> (r: u8) {
        0
    }

    fn one() -> (r: u8) {
        1
    }

    fn max_value() -> (r: u8) {
        u8::MAX
    }

    fn from_u64(v: u64) -> (r: u8) {
        proof {
            assert((v as u8) as nat == (v as nat) % 0x100) by (bit_vector);
        }
        v as u8
    }

    fn to_u64(self) -> (r: u64) {
        self as u64
    }

    fn to_wide(self) -> (r: u16) {
        self as u16
    }

    fn from_wide_truncate(w: u16) -> (r: u8) {
        proof {
            assert((w as u8) as nat == (w as nat) % 0x100) by (bit_vector);
        }
        w as u8
    }

    fn wrapping_add(self, rhs: u8) -> (r: u8) {
        proof {
            lemma_mod_add_once(self + rhs, 0x100);
        }
        self.wrapping_add(rhs)
    }

    fn wrapping_sub(self, rhs: u8) -> (r: u8) {
        proof {
            lemma_mod_sub_once(self - rhs, 0x100);
        }
        self.wrapping_sub(rhs)
    }

    fn wrapping_mul(self, rhs: u8) -> (r: u8) {
        self.wrapping_mul(rhs)
    }

    fn overflowing_add(self, rhs: u8) -> (r: (u8, bool)) {
        proof {
            lemma_mod_add_once(self + rhs, 0x100);
        }
        let s = self.wrapping_add(rhs);
        (s, s < self)
    }

    fn wide_add(a: u16, b: u16) -> (r: u16) {
        proof {
            lemma_mod_add_once(a + b, 0x1_0000);
        }
        a.wrapping_add(b)
    }

    fn wide_mul(a: u16, b: u16) -> (r: u16) {
        a.wrapping_mul(b)
    }

    fn wide_shr(w: u16, shift: u32) -> (r: u16) {
        proof {
            lemma_u16_shr_is_div(w, shift as u16);
        }
        w >> shift
    }

    fn wide_from_u64(v: u64) -> (r: u16) {
        proof {
            lemma_wide_from_u64_u16(v);
        }
        v as u16
    }

    fn wrapping_neg(self) -> (r: u8) {
        proof {
            lemma_mod_sub_once(0 - self, 0x100);
        }
        (0 as u8).wrapping_sub(self)
    }

    fn mod_limb(self, modulus: u8) -> (r: u8) {
        self % modulus
    }

    fn lt(self, rhs: u8) -> (r: bool) {
        self < rhs
    }

    open spec fn leading_zeros_spec(self) -> nat {
        u8_leading_zeros(self) as nat
    }

    fn leading_zeros(self) -> (r: u32) {
        self.leading_zeros()
    }
}

impl UintLimb for u16 {
    type Wide = u32;

    open spec fn bits_nat() -> nat {
        16
    }

    open spec fn base() -> nat {
        0x1_0000
    }

    open spec fn wide_base() -> nat {
        (0x1_0000_0000) as nat
    }

    open spec fn nat_of(self) -> nat {
        self as nat
    }

    open spec fn wide_nat(w: u32) -> nat {
        w as nat
    }

    open spec fn from_nat(n: nat) -> u16 {
        n as u16
    }

    proof fn lemma_limb(a: u16, b: u16) {
        lemma_limb_pow2_values();
    }

    proof fn lemma_wide(w: u32) {
        lemma_limb_pow2_values();
    }

    proof fn lemma_from_nat(n: nat) {
    }

    fn bits() -> (r: u32) {
        16
    }

    fn zero() -> (r: u16) {
        0
    }

    fn one() -> (r: u16) {
        1
    }

    fn max_value() -> (r: u16) {
        u16::MAX
    }

    fn from_u64(v: u64) -> (r: u16) {
        proof {
            assert((v as u16) as nat == (v as nat) % 0x1_0000) by (bit_vector);
        }
        v as u16
    }

    fn to_u64(self) -> (r: u64) {
        self as u64
    }

    fn to_wide(self) -> (r: u32) {
        self as u32
    }

    fn from_wide_truncate(w: u32) -> (r: u16) {
        proof {
            assert((w as u16) as nat == (w as nat) % 0x1_0000) by (bit_vector);
        }
        w as u16
    }

    fn wrapping_add(self, rhs: u16) -> (r: u16) {
        proof {
            lemma_mod_add_once(self + rhs, 0x1_0000);
        }
        self.wrapping_add(rhs)
    }

    fn wrapping_sub(self, rhs: u16) -> (r: u16) {
        proof {
            lemma_mod_sub_once(self - rhs, 0x1_0000);
        }
        self.wrapping_sub(rhs)
    }

    fn wrapping_mul(self, rhs: u16) -> (r: u16) {
        self.wrapping_mul(rhs)
    }

    fn overflowing_add(self, rhs: u16) -> (r: (u16, bool)) {
        proof {
            lemma_mod_add_once(self + rhs, 0x1_0000);
        }
        let s = self.wrapping_add(rhs);
        (s, s < self)
    }

    fn wide_add(a: u32, b: u32) -> (r: u32) {
        proof {
            lemma_mod_add_once(a + b, 0x1_0000_0000);
        }
        a.wrapping_add(b)
    }

    fn wide_mul(a: u32, b: u32) -> (r: u32) {
        a.wrapping_mul(b)
    }

    fn wide_shr(w: u32, shift: u32) -> (r: u32) {
        proof {
            lemma_u32_shr_is_div(w, shift as u32);
        }
        w >> shift
    }

    fn wide_from_u64(v: u64) -> (r: u32) {
        proof {
            lemma_wide_from_u64_u32(v);
        }
        v as u32
    }

    fn wrapping_neg(self) -> (r: u16) {
        proof {
            lemma_mod_sub_once(0 - self, 0x1_0000);
        }
        (0 as u16).wrapping_sub(self)
    }

    fn mod_limb(self, modulus: u16) -> (r: u16) {
        self % modulus
    }

    fn lt(self, rhs: u16) -> (r: bool) {
        self < rhs
    }

    open spec fn leading_zeros_spec(self) -> nat {
        u16_leading_zeros(self) as nat
    }

    fn leading_zeros(self) -> (r: u32) {
        self.leading_zeros()
    }
}

impl UintLimb for u32 {
    type Wide = u64;

    open spec fn bits_nat() -> nat {
        32
    }

    open spec fn base() -> nat {
        0x1_0000_0000
    }

    open spec fn wide_base() -> nat {
        (0x1_0000_0000_0000_0000) as nat
    }

    open spec fn nat_of(self) -> nat {
        self as nat
    }

    open spec fn wide_nat(w: u64) -> nat {
        w as nat
    }

    open spec fn from_nat(n: nat) -> u32 {
        n as u32
    }

    proof fn lemma_limb(a: u32, b: u32) {
        lemma_limb_pow2_values();
    }

    proof fn lemma_wide(w: u64) {
        lemma_limb_pow2_values();
    }

    proof fn lemma_from_nat(n: nat) {
    }

    fn bits() -> (r: u32) {
        32
    }

    fn zero() -> (r: u32) {
        0
    }

    fn one() -> (r: u32) {
        1
    }

    fn max_value() -> (r: u32) {
        u32::MAX
    }

    fn from_u64(v: u64) -> (r: u32) {
        proof {
            assert((v as u32) as nat == (v as nat) % 0x1_0000_0000) by (bit_vector);
        }
        v as u32
    }

    fn to_u64(self) -> (r: u64) {
        self as u64
    }

    fn to_wide(self) -> (r: u64) {
        self as u64
    }

    fn from_wide_truncate(w: u64) -> (r: u32) {
        proof {
            assert((w as u32) as nat == (w as nat) % 0x1_0000_0000) by (bit_vector);
        }
        w as u32
    }

    fn wrapping_add(self, rhs: u32) -> (r: u32) {
        proof {
            lemma_mod_add_once(self + rhs, 0x1_0000_0000);
        }
        self.wrapping_add(rhs)
    }

    fn wrapping_sub(self, rhs: u32) -> (r: u32) {
        proof {
            lemma_mod_sub_once(self - rhs, 0x1_0000_0000);
        }
        self.wrapping_sub(rhs)
    }

    fn wrapping_mul(self, rhs: u32) -> (r: u32) {
        self.wrapping_mul(rhs)
    }

    fn overflowing_add(self, rhs: u32) -> (r: (u32, bool)) {
        proof {
            lemma_mod_add_once(self + rhs, 0x1_0000_0000);
        }
        let s = self.wrapping_add(rhs);
        (s, s < self)
    }

    fn wide_add(a: u64, b: u64) -> (r: u64) {
        proof {
            lemma_mod_add_once(a + b, 0x1_0000_0000_0000_0000);
        }
        a.wrapping_add(b)
    }

    fn wide_mul(a: u64, b: u64) -> (r: u64) {
        a.wrapping_mul(b)
    }

    fn wide_shr(w: u64, shift: u32) -> (r: u64) {
        proof {
            lemma_u64_shr_is_div(w, shift as u64);
        }
        w >> shift
    }

    fn wide_from_u64(v: u64) -> (r: u64) {
        proof {
            lemma_wide_from_u64_u64(v);
        }
        v as u64
    }

    fn wrapping_neg(self) -> (r: u32) {
        proof {
            lemma_mod_sub_once(0 - self, 0x1_0000_0000);
        }
        (0 as u32).wrapping_sub(self)
    }

    fn mod_limb(self, modulus: u32) -> (r: u32) {
        self % modulus
    }

    fn lt(self, rhs: u32) -> (r: bool) {
        self < rhs
    }

    open spec fn leading_zeros_spec(self) -> nat {
        u32_leading_zeros(self) as nat
    }

    fn leading_zeros(self) -> (r: u32) {
        self.leading_zeros()
    }
}

impl UintLimb for u64 {
    type Wide = u128;

    open spec fn bits_nat() -> nat {
        64
    }

    open spec fn base() -> nat {
        0x1_0000_0000_0000_0000
    }

    open spec fn wide_base() -> nat {
        (0x1_0000_0000_0000_0000_0000_0000_0000_0000int) as nat
    }

    open spec fn nat_of(self) -> nat {
        self as nat
    }

    open spec fn wide_nat(w: u128) -> nat {
        w as nat
    }

    open spec fn from_nat(n: nat) -> u64 {
        n as u64
    }

    proof fn lemma_limb(a: u64, b: u64) {
        lemma_limb_pow2_values();
    }

    proof fn lemma_wide(w: u128) {
        lemma_limb_pow2_values();
    }

    proof fn lemma_from_nat(n: nat) {
    }

    fn bits() -> (r: u32) {
        64
    }

    fn zero() -> (r: u64) {
        0
    }

    fn one() -> (r: u64) {
        1
    }

    fn max_value() -> (r: u64) {
        u64::MAX
    }

    fn from_u64(v: u64) -> (r: u64) {
        proof {
            assert((v as u64) as nat == (v as nat) % 0x1_0000_0000_0000_0000) by (bit_vector);
        }
        v as u64
    }

    fn to_u64(self) -> (r: u64) {
        self as u64
    }

    fn to_wide(self) -> (r: u128) {
        self as u128
    }

    fn from_wide_truncate(w: u128) -> (r: u64) {
        proof {
            assert((w as u64) as nat == (w as nat) % 0x1_0000_0000_0000_0000) by (bit_vector);
        }
        w as u64
    }

    fn wrapping_add(self, rhs: u64) -> (r: u64) {
        proof {
            lemma_mod_add_once(self + rhs, 0x1_0000_0000_0000_0000);
        }
        self.wrapping_add(rhs)
    }

    fn wrapping_sub(self, rhs: u64) -> (r: u64) {
        proof {
            lemma_mod_sub_once(self - rhs, 0x1_0000_0000_0000_0000);
        }
        self.wrapping_sub(rhs)
    }

    fn wrapping_mul(self, rhs: u64) -> (r: u64) {
        self.wrapping_mul(rhs)
    }

    fn overflowing_add(self, rhs: u64) -> (r: (u64, bool)) {
        proof {
            lemma_mod_add_once(self + rhs, 0x1_0000_0000_0000_0000);
        }
        let s = self.wrapping_add(rhs);
        (s, s < self)
    }

    fn wide_add(a: u128, b: u128) -> (r: u128) {
        proof {
            lemma_mod_add_once(a + b, 0x1_0000_0000_0000_0000_0000_0000_0000_0000int);
        }
        a.wrapping_add(b)
    }

    fn wide_mul(a: u128, b: u128) -> (r: u128) {
        a.wrapping_mul(b)
    }

    fn wide_shr(w: u128, shift: u32) -> (r: u128) {
        proof {
            lemma_u128_shr_is_div(w, shift as u128);
        }
        w >> shift
    }

    fn wide_from_u64(v: u64) -> (r: u128) {
        proof {
            lemma_wide_from_u64_u128(v);
        }
        v as u128
    }

    fn wrapping_neg(self) -> (r: u64) {
        proof {
            lemma_mod_sub_once(0 - self, 0x1_0000_0000_0000_0000);
        }
        (0 as u64).wrapping_sub(self)
    }

    fn mod_limb(self, modulus: u64) -> (r: u64) {
        self % modulus
    }

    fn lt(self, rhs: u64) -> (r: bool) {
        self < rhs
    }

    open spec fn leading_zeros_spec(self) -> nat {
        u64_leading_zeros(self) as nat
    }

    fn leading_zeros(self) -> (r: u32) {
        self.leading_zeros()
    }
}

} // verus!
