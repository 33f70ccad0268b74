//! Integer rings whose canonical values may exceed 64 bits.
//!
//! A ring `Z_q` hands out its elements as canonical integers in `[0, q)` of
//! an associated type (`u64` for the small rings, a fixed-width big integer
//! for the large ones), and builds elements back from such integers.
use crate::arith::bigint::{BigUint, limb_pow};
use crate::arith::ring::Ring;
use vstd::prelude::*;

verus! {

/// An unsigned integer type used for canonical values.
pub trait CanonicalValue: Sized {
    /// The integer that the value stands for.
    spec fn canonical_nat(&self) -> nat;

    /// Every value of the type is below this bound.
    spec fn canonical_bound() -> nat;
}

impl CanonicalValue for u64 {
    open spec fn canonical_nat(&self) -> nat {
        *self as nat
    }

    open spec fn canonical_bound() -> nat {
        0x1_0000_0000_0000_0000
    }
}

impl<const N: usize> CanonicalValue for BigUint<N> {
    open spec fn canonical_nat(&self) -> nat {
        self.value()
    }

    open spec fn canonical_bound() -> nat {
        limb_pow(N as nat)
    }
}

/// An integer ring `Z_q` with conversions to and from canonical integers.
///
/// The modulus may exceed 64 bits, so the ring states its own modulus and values
/// rather than those of the 64-bit integer rings.
pub trait LargeCanonicalRing: Ring {
    /// The integer type of canonical values.
    type Canonical: CanonicalValue;

    /// The modulus `q`.
    spec fn canonical_modulus() -> nat;

    /// The canonical value of an element, in `[0, q)`.
    spec fn canonical_value(self) -> nat;

    /// The operations agree with arithmetic modulo `q`, and an element is
    /// determined by its value.
    proof fn lemma_canonical(a: Self, b: Self)
        requires
            a.wf(),
            b.wf(),
        ensures
            Self::canonical_modulus() > 1,
            a.canonical_value() < Self::canonical_modulus(),
            Self::add_spec(a, b).canonical_value() as int == ((a.canonical_value() + b.canonical_value()) as int)
                % (Self::canonical_modulus() as int),
            Self::sub_spec(a, b).canonical_value() as int == (a.canonical_value() - b.canonical_value()) % (
            Self::canonical_modulus() as int),
            Self::mul_spec(a, b).canonical_value() as int == ((a.canonical_value() * b.canonical_value()) as int)
                % (Self::canonical_modulus() as int),
            Self::neg_spec(a).canonical_value() as int == (Self::canonical_modulus() - a.canonical_value()) % (
            Self::canonical_modulus() as int),
            a.canonical_value() == b.canonical_value() ==> a == b,
    ;

    /// The identities have values `0` and `1`.
    proof fn lemma_canonical_identities()
        requires
            Self::params_ok(),
        ensures
            Self::canonical_modulus() > 1,
            Self::zero_spec().canonical_value() == 0,
            Self::one_spec().canonical_value() == 1,
    ;

    /// The modulus fits the canonical type: it is at most the type's width.
    proof fn lemma_modulus_fits()
        requires
            Self::params_ok(),
        ensures
            Self::canonical_modulus() <= Self::Canonical::canonical_bound(),
    ;

    /// The modulus `q`, reduced modulo the width of the canonical type (so a
    /// modulus equal to that width is returned as zero); `q` never exceeds that width.
    fn modulus_canonical() -> (m: Self::Canonical)
        requires
            Self::params_ok(),
        ensures
            m.canonical_nat() == Self::canonical_modulus() % Self::Canonical::canonical_bound(),
            Self::canonical_modulus() <= Self::Canonical::canonical_bound(),
    ;

    /// The element `v mod q`.
    fn from_small_u64(v: u64) -> (r: Self)
        requires
            Self::params_ok(),
        ensures
            r.wf(),
            r.canonical_value() == (v as nat) % Self::canonical_modulus(),
    ;

    /// The element `c mod q`.
    fn from_canonical(c: &Self::Canonical) -> (r: Self)
        requires
            Self::params_ok(),
        ensures
            r.wf(),
            r.canonical_value() == c.canonical_nat() % Self::canonical_modulus(),
    ;

    /// The canonical value in `[0, q)`.
    fn to_canonical(&self) -> (c: Self::Canonical)
        requires
            self.wf(),
        ensures
            c.canonical_nat() == self.canonical_value(),
    ;

    /// The canonical value, if it fits in 64 bits.
    fn try_to_u64(&self) -> (r: Option<u64>)
        requires
            self.wf(),
        ensures
            r == (if self.canonical_value() < 0x1_0000_0000_0000_0000 {
                Some(self.canonical_value() as u64)
            } else {
                None
            }),
    ;

    /// The canonical value, if it fits in 128 bits.
    fn try_to_u128(&self) -> (r: Option<u128>)
        requires
            self.wf(),
        ensures
            r == (if self.canonical_value() < 0x1_0000_0000_0000_0000_0000_0000_0000_0000 {
                Some(self.canonical_value() as u128)
            } else {
                None
            }),
    ;
}

} // verus!
