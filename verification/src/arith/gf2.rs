//! `GF2` — the binary field `GF(2) = Z/2Z`.
//!
//! Addition and subtraction are XOR, multiplication is AND.
use crate::arith::large_modulus::LargeCanonicalRing;
use crate::arith::modular::lemma_mod_ring_laws;
use crate::arith::ring::{
    Field, IntegerRing, Ring, dot_spec, pow_spec, ring_add_assign_slice, ring_pointwise_mul_assign_slice,
    ring_pow, ring_sub_assign_slice, seq_wf,
};
use vstd::prelude::*;

verus! {

/// An element of `GF(2)`, stored as `0` or `1`.
#[derive(Clone, Copy, Debug)]
pub struct GF2(u8);

impl GF2 {
    /// The stored bit.
    pub closed spec fn bit(self) -> u8 {
        self.0
    }

    /// The element `val mod 2`.
    pub fn new(val: u8) -> (r: Self)
        ensures
            r.wf(),
            r.bit() == val % 2,
    {
        proof {
            assert(val & 1 == val % 2) by (bit_vector);
        }
        GF2(val & 1)
    }

    fn add_total(a: &Self, b: &Self) -> (r: Self)
        ensures
            a.wf() && b.wf() ==> r == <Self as Ring>::add_spec(*a, *b),
    {
        let x = a.0;
        let y = b.0;
        proof {
            assert(x < 2 && y < 2 ==> x ^ y == (x + y) % 2) by (bit_vector);
        }
        GF2(x ^ y)
    }

    fn sub_total(a: &Self, b: &Self) -> (r: Self)
        ensures
            a.wf() && b.wf() ==> r == <Self as Ring>::sub_spec(*a, *b),
    {
        let x = a.0;
        let y = b.0;
        proof {
            assert(x < 2 && y < 2 ==> x ^ y == (x + y) % 2) by (bit_vector);
        }
        GF2(x ^ y)
    }

    fn mul_total(a: &Self, b: &Self) -> (r: Self)
        ensures
            a.wf() && b.wf() ==> r == <Self as Ring>::mul_spec(*a, *b),
    {
        let x = a.0;
        let y = b.0;
        proof {
            assert(x < 2 && y < 2 ==> x & y == x * y) by (bit_vector);
        }
        GF2(x & y)
    }

    fn neg_total(a: &Self) -> (r: Self)
        ensures
            a.wf() ==> r == <Self as Ring>::neg_spec(*a),
    {
        *a
    }

    fn eq_total(a: &Self, b: &Self) -> (r: bool)
        ensures
            r == (*a == *b),
    {
        a.0 == b.0
    }
}

impl Ring for GF2 {
    open spec fn params_ok() -> bool {
        true
    }

    closed spec fn wf(self) -> bool {
        self.0 < 2
    }

    closed spec fn zero_spec() -> Self {
        GF2(0)
    }

    closed spec fn one_spec() -> Self {
        GF2(1)
    }

    closed spec fn add_spec(a: Self, b: Self) -> Self {
        GF2(((a.0 + b.0) % 2) as u8)
    }

    closed spec fn sub_spec(a: Self, b: Self) -> Self {
        GF2(((a.0 + b.0) % 2) as u8)
    }

    closed spec fn mul_spec(a: Self, b: Self) -> Self {
        GF2((a.0 * b.0) as u8)
    }

    closed spec fn neg_spec(a: Self) -> Self {
        a
    }

    proof fn lemma_wf_params(a: Self) {
    }

    proof fn lemma_identities_wf() {
    }

    proof fn lemma_closed(a: Self, b: Self) {
        assert(a.0 == 0 || a.0 == 1);
        assert(b.0 == 0 || b.0 == 1);
        let p = a.0 * b.0;
        assert(p == 0 || p == 1) by (nonlinear_arith)
            requires
                a.0 == 0 || a.0 == 1,
                b.0 == 0 || b.0 == 1,
                p == a.0 * b.0,
        ;
        assert((p as u8) == p);
    }

    proof fn lemma_add_laws(a: Self, b: Self, c: Self) {
    }

    proof fn lemma_mul_laws(a: Self, b: Self, c: Self) {
        assert(a.0 == 0 || a.0 == 1);
        assert(b.0 == 0 || b.0 == 1);
        assert(c.0 == 0 || c.0 == 1);
    }

    fn zero() -> (r: Self) {
        GF2(0)
    }

    fn one() -> (r: Self) {
        GF2(1)
    }

    fn is_zero(&self) -> (b: bool) {
        self.0 == 0
    }

    fn is_one(&self) -> (b: bool) {
        self.0 == 1
    }

    fn add_ref(a: &Self, b: &Self) -> (r: Self) {
        Self::add_total(a, b)
    }

    fn sub_ref(a: &Self, b: &Self) -> (r: Self) {
        Self::sub_total(a, b)
    }

    fn mul_ref(a: &Self, b: &Self) -> (r: Self) {
        proof {
            Self::lemma_closed(*a, *b);
        }
        Self::mul_total(a, b)
    }

    fn neg_ref(a: &Self) -> (r: Self) {
        *a
    }

    fn double(&self) -> (r: Self) {
        GF2(0)
    }

    fn square(&self) -> (r: Self) {
        proof {
            assert(self.0 == 0 || self.0 == 1);
            assert(self.0 * self.0 == self.0) by (nonlinear_arith)
                requires
                    self.0 == 0 || self.0 == 1,
            ;
        }
        *self
    }
}

impl IntegerRing for GF2 {
    open spec fn modulus_spec() -> nat {
        2
    }

    closed spec fn value(self) -> nat {
        self.0 as nat
    }

    proof fn lemma_value(a: Self, b: Self) {
        assert(a.0 == 0 || a.0 == 1);
        assert(b.0 == 0 || b.0 == 1);
    }

    proof fn lemma_identity_values() {
    }

    fn modulus() -> (m: u64) {
        2
    }

    fn from_u64(val: u64) -> (r: Self) {
        let low = (val & 1) as u8;
        proof {
            assert(val & 1 == val % 2) by (bit_vector);
        }
        GF2(low)
    }

    fn to_u64(&self) -> (r: u64) {
        self.0 as u64
    }

    fn reduce(&self) -> (r: Self) {
        *self
    }
}

impl Field for GF2 {
    open spec fn is_field() -> bool {
        true
    }

    fn inv(&self) -> (r: Self) {
        GF2(1)
    }
}

impl GF2 {
    /// `dst[i] += src[i]` (XOR) for every index.
    pub fn add_assign_slice(dst: &mut [Self], src: &[Self])
        requires
            old(dst)@.len() == src@.len(),
            seq_wf(old(dst)@),
            seq_wf(src@),
        ensures
            final(dst)@.len() == old(dst)@.len(),
            forall|i: int|
                0 <= i < src@.len() ==> #[trigger] final(dst)@[i] == <Self as Ring>::add_spec(
                    old(dst)@[i],
                    src@[i],
                ),
            seq_wf(final(dst)@),
    {
        ring_add_assign_slice(dst, src)
    }

    /// Subtraction equals addition in characteristic 2.
    pub fn sub_assign_slice(dst: &mut [Self], src: &[Self])
        requires
            old(dst)@.len() == src@.len(),
            seq_wf(old(dst)@),
            seq_wf(src@),
        ensures
            final(dst)@.len() == old(dst)@.len(),
            forall|i: int|
                0 <= i < src@.len() ==> #[trigger] final(dst)@[i] == <Self as Ring>::sub_spec(
                    old(dst)@[i],
                    src@[i],
                ),
            seq_wf(final(dst)@),
    {
        ring_sub_assign_slice(dst, src)
    }

    /// Multiplying by `1` keeps `dst`; multiplying by `0` clears it.
    pub fn scalar_mul_slice(dst: &mut [Self], scalar: &Self)
        requires
            seq_wf(old(dst)@),
            scalar.wf(),
        ensures
            final(dst)@.len() == old(dst)@.len(),
            forall|i: int|
                0 <= i < old(dst)@.len() ==> #[trigger] final(dst)@[i] == <Self as Ring>::mul_spec(
                    old(dst)@[i],
                    *scalar,
                ),
            seq_wf(final(dst)@),
    {
        if scalar.is_zero() {
            let n = dst.len();
            let mut i: usize = 0;
            while i < n
                invariant
                    n == dst@.len(),
                    n == old(dst)@.len(),
                    0 <= i <= n,
                    *scalar == GF2(0),
                    seq_wf(old(dst)@),
                    forall|j: int| 0 <= j < i ==> #[trigger] dst@[j] == GF2(0),
                    forall|j: int| i <= j < n ==> #[trigger] dst@[j] == old(dst)@[j],
                decreases n - i,
            {
                dst[i] = GF2(0);
                i = i + 1;
            }
        }
    }

    /// `dst[i] *= rhs[i]` (AND) for every index.
    pub fn pointwise_mul_assign_slice(dst: &mut [Self], rhs: &[Self])
        requires
            old(dst)@.len() == rhs@.len(),
            seq_wf(old(dst)@),
            seq_wf(rhs@),
        ensures
            final(dst)@.len() == old(dst)@.len(),
            forall|i: int|
                0 <= i < rhs@.len() ==> #[trigger] final(dst)@[i] == <Self as Ring>::mul_spec(
                    old(dst)@[i],
                    rhs@[i],
                ),
            seq_wf(final(dst)@),
    {
        ring_pointwise_mul_assign_slice(dst, rhs)
    }

    /// The parity of the number of positions where both bits are set.
    pub fn dot_product(lhs: &[Self], rhs: &[Self]) -> (r: Self)
        requires
            lhs@.len() == rhs@.len(),
            seq_wf(lhs@),
            seq_wf(rhs@),
        ensures
            r == dot_spec(lhs@, rhs@),
            r.wf(),
    {
        let n = lhs.len();
        let mut acc: u64 = 0;
        let mut i: usize = 0;
        while i < n
            invariant
                n == lhs@.len(),
                n == rhs@.len(),
                0 <= i <= n,
                acc <= i,
                seq_wf(lhs@),
                seq_wf(rhs@),
                dot_spec(lhs@.subrange(0, i as int), rhs@.subrange(0, i as int)) == GF2(
                    (acc % 2) as u8,
                ),
            decreases n - i,
        {
            let l = lhs[i].0;
            let r = rhs[i].0;
            proof {
                let a = lhs@.subrange(0, i + 1);
                let b = rhs@.subrange(0, i + 1);
                assert(a.drop_last() =~= lhs@.subrange(0, i as int));
                assert(b.subrange(0, a.len() - 1) =~= rhs@.subrange(0, i as int));
                assert(l < 2 && r < 2 ==> l & r == l * r) by (bit_vector);
                assert(l & r <= 1) by (bit_vector)
                    requires l < 2;
            }
            acc = acc + (l & r) as u64;
            i = i + 1;
        }
        proof {
            assert(lhs@.subrange(0, n as int) =~= lhs@);
            assert(rhs@.subrange(0, n as int) =~= rhs@);
        }
        proof {
            assert(acc & 1 == acc % 2) by (bit_vector);
        }
        let bit = (acc & 1) as u8;
        GF2(bit)
    }

    /// `dst += src` when `scalar` is `1`; `dst` unchanged when it is `0`.
    pub fn add_assign_scaled_slice(dst: &mut [Self], src: &[Self], scalar: &Self)
        requires
            old(dst)@.len() == src@.len(),
            seq_wf(old(dst)@),
            seq_wf(src@),
            scalar.wf(),
        ensures
            final(dst)@.len() == old(dst)@.len(),
            forall|i: int|
                0 <= i < src@.len() ==> #[trigger] final(dst)@[i] == <Self as Ring>::add_spec(
                    old(dst)@[i],
                    <Self as Ring>::mul_spec(src@[i], *scalar),
                ),
            seq_wf(final(dst)@),
    {
        if scalar.is_zero() {
            return;
        }
        Self::add_assign_slice(dst, src);
    }

    /// `self^exp` by repeated squaring.
    pub fn pow(&self, exp: u64) -> (r: Self)
        requires
            self.wf(),
        ensures
            r == pow_spec(*self, exp as nat),
            r.wf(),
    {
        ring_pow(self, exp)
    }
}


impl LargeCanonicalRing for GF2 {
    type Canonical = u64;

    open spec fn canonical_modulus() -> nat {
        Self::modulus_spec()
    }

    open spec fn canonical_value(self) -> nat {
        self.value()
    }

    proof fn lemma_canonical(a: Self, b: Self) {
        Self::lemma_value(a, b);
    }

    proof fn lemma_modulus_fits() {
    }

    proof fn lemma_canonical_identities() {
        Self::lemma_identity_values();
    }

    fn modulus_canonical() -> (m: u64) {
        Self::modulus()
    }

    fn from_small_u64(v: u64) -> (r: Self) {
        Self::from_u64(v)
    }

    fn from_canonical(c: &u64) -> (r: Self) {
        Self::from_u64(*c)
    }

    fn to_canonical(&self) -> (c: u64) {
        proof {
            Self::lemma_value(*self, *self);
        }
        self.to_u64()
    }

    fn try_to_u64(&self) -> (r: Option<u64>) {
        proof {
            Self::lemma_value(*self, *self);
        }
        Some(self.to_u64())
    }

    fn try_to_u128(&self) -> (r: Option<u128>) {
        proof {
            Self::lemma_value(*self, *self);
        }
        Some(self.to_u64() as u128)
    }
}
impl core::ops::Add for GF2 {
    type Output = Self;

    fn add(self, rhs: Self) -> (r: Self) {
        Self::add_total(&self, &rhs)
    }
}

impl vstd::std_specs::ops::AddSpecImpl for GF2 {
    open spec fn obeys_add_spec() -> bool {
        true
    }

    open spec fn add_req(self, rhs: Self) -> bool {
        self.wf() && rhs.wf()
    }

    open spec fn add_spec(self, rhs: Self) -> Self {
        <Self as Ring>::add_spec(self, rhs)
    }
}

impl<'a> core::ops::Add<&'a GF2> for GF2 {
    type Output = Self;

    fn add(self, rhs: &'a GF2) -> Self {
        Self::add_total(&self, rhs)
    }
}

impl<'a> vstd::std_specs::ops::AddSpecImpl<&'a GF2> for GF2 {
    open spec fn obeys_add_spec() -> bool {
        true
    }

    open spec fn add_req(self, rhs: &'a GF2) -> bool {
        self.wf() && rhs.wf()
    }

    open spec fn add_spec(self, rhs: &'a GF2) -> Self {
        <Self as Ring>::add_spec(self, *rhs)
    }
}

impl core::ops::AddAssign for GF2 {
    fn add_assign(&mut self, rhs: Self)
        ensures
            old(self).wf() && rhs.wf() ==> *final(self) == <Self as Ring>::add_spec(*old(self), rhs),
    {
        *self = Self::add_total(self, &rhs);
    }
}

impl<'a> core::ops::AddAssign<&'a GF2> for GF2 {
    fn add_assign(&mut self, rhs: &'a GF2)
        ensures
            old(self).wf() && rhs.wf() ==> *final(self) == <Self as Ring>::add_spec(*old(self), *rhs),
    {
        *self = Self::add_total(self, rhs);
    }
}

impl<'a> core::ops::Add<&'a GF2> for &'a GF2 {
    type Output = GF2;

    fn add(self, rhs: &'a GF2) -> GF2 {
        GF2::add_total(self, rhs)
    }
}

impl<'a> vstd::std_specs::ops::AddSpecImpl<&'a GF2> for &'a GF2 {
    open spec fn obeys_add_spec() -> bool {
        true
    }

    open spec fn add_req(self, rhs: &'a GF2) -> bool {
        self.wf() && rhs.wf()
    }

    open spec fn add_spec(self, rhs: &'a GF2) -> GF2 {
        <GF2 as Ring>::add_spec(*self, *rhs)
    }
}

impl<'a> core::ops::Add<GF2> for &'a GF2 {
    type Output = GF2;

    fn add(self, rhs: GF2) -> GF2 {
        GF2::add_total(self, &rhs)
    }
}

impl<'a> vstd::std_specs::ops::AddSpecImpl<GF2> for &'a GF2 {
    open spec fn obeys_add_spec() -> bool {
        true
    }

    open spec fn add_req(self, rhs: GF2) -> bool {
        self.wf() && rhs.wf()
    }

    open spec fn add_spec(self, rhs: GF2) -> GF2 {
        <GF2 as Ring>::add_spec(*self, rhs)
    }
}

impl core::ops::Sub for GF2 {
    type Output = Self;

    fn sub(self, rhs: Self) -> (r: Self) {
        Self::sub_total(&self, &rhs)
    }
}

impl vstd::std_specs::ops::SubSpecImpl for GF2 {
    open spec fn obeys_sub_spec() -> bool {
        true
    }

    open spec fn sub_req(self, rhs: Self) -> bool {
        self.wf() && rhs.wf()
    }

    open spec fn sub_spec(self, rhs: Self) -> Self {
        <Self as Ring>::sub_spec(self, rhs)
    }
}

impl<'a> core::ops::Sub<&'a GF2> for GF2 {
    type Output = Self;

    fn sub(self, rhs: &'a GF2) -> Self {
        Self::sub_total(&self, rhs)
    }
}

impl<'a> vstd::std_specs::ops::SubSpecImpl<&'a GF2> for GF2 {
    open spec fn obeys_sub_spec() -> bool {
        true
    }

    open spec fn sub_req(self, rhs: &'a GF2) -> bool {
        self.wf() && rhs.wf()
    }

    open spec fn sub_spec(self, rhs: &'a GF2) -> Self {
        <Self as Ring>::sub_spec(self, *rhs)
    }
}

impl core::ops::SubAssign for GF2 {
    fn sub_assign(&mut self, rhs: Self)
        ensures
            old(self).wf() && rhs.wf() ==> *final(self) == <Self as Ring>::sub_spec(*old(self), rhs),
    {
        *self = Self::sub_total(self, &rhs);
    }
}

impl<'a> core::ops::SubAssign<&'a GF2> for GF2 {
    fn sub_assign(&mut self, rhs: &'a GF2)
        ensures
            old(self).wf() && rhs.wf() ==> *final(self) == <Self as Ring>::sub_spec(*old(self), *rhs),
    {
        *self = Self::sub_total(self, rhs);
    }
}

impl<'a> core::ops::Sub<&'a GF2> for &'a GF2 {
    type Output = GF2;

    fn sub(self, rhs: &'a GF2) -> GF2 {
        GF2::sub_total(self, rhs)
    }
}

impl<'a> vstd::std_specs::ops::SubSpecImpl<&'a GF2> for &'a GF2 {
    open spec fn obeys_sub_spec() -> bool {
        true
    }

    open spec fn sub_req(self, rhs: &'a GF2) -> bool {
        self.wf() && rhs.wf()
    }

    open spec fn sub_spec(self, rhs: &'a GF2) -> GF2 {
        <GF2 as Ring>::sub_spec(*self, *rhs)
    }
}

impl<'a> core::ops::Sub<GF2> for &'a GF2 {
    type Output = GF2;

    fn sub(self, rhs: GF2) -> GF2 {
        GF2::sub_total(self, &rhs)
    }
}

impl<'a> vstd::std_specs::ops::SubSpecImpl<GF2> for &'a GF2 {
    open spec fn obeys_sub_spec() -> bool {
        true
    }

    open spec fn sub_req(self, rhs: GF2) -> bool {
        self.wf() && rhs.wf()
    }

    open spec fn sub_spec(self, rhs: GF2) -> GF2 {
        <GF2 as Ring>::sub_spec(*self, rhs)
    }
}

impl core::ops::Mul for GF2 {
    type Output = Self;

    fn mul(self, rhs: Self) -> (r: Self) {
        Self::mul_total(&self, &rhs)
    }
}

impl vstd::std_specs::ops::MulSpecImpl for GF2 {
    open spec fn obeys_mul_spec() -> bool {
        true
    }

    open spec fn mul_req(self, rhs: Self) -> bool {
        self.wf() && rhs.wf()
    }

    open spec fn mul_spec(self, rhs: Self) -> Self {
        <Self as Ring>::mul_spec(self, rhs)
    }
}

impl<'a> core::ops::Mul<&'a GF2> for GF2 {
    type Output = Self;

    fn mul(self, rhs: &'a GF2) -> Self {
        Self::mul_total(&self, rhs)
    }
}

impl<'a> vstd::std_specs::ops::MulSpecImpl<&'a GF2> for GF2 {
    open spec fn obeys_mul_spec() -> bool {
        true
    }

    open spec fn mul_req(self, rhs: &'a GF2) -> bool {
        self.wf() && rhs.wf()
    }

    open spec fn mul_spec(self, rhs: &'a GF2) -> Self {
        <Self as Ring>::mul_spec(self, *rhs)
    }
}

impl core::ops::MulAssign for GF2 {
    fn mul_assign(&mut self, rhs: Self)
        ensures
            old(self).wf() && rhs.wf() ==> *final(self) == <Self as Ring>::mul_spec(*old(self), rhs),
    {
        *self = Self::mul_total(self, &rhs);
    }
}

impl<'a> core::ops::MulAssign<&'a GF2> for GF2 {
    fn mul_assign(&mut self, rhs: &'a GF2)
        ensures
            old(self).wf() && rhs.wf() ==> *final(self) == <Self as Ring>::mul_spec(*old(self), *rhs),
    {
        *self = Self::mul_total(self, rhs);
    }
}

impl<'a> core::ops::Mul<&'a GF2> for &'a GF2 {
    type Output = GF2;

    fn mul(self, rhs: &'a GF2) -> GF2 {
        GF2::mul_total(self, rhs)
    }
}

impl<'a> vstd::std_specs::ops::MulSpecImpl<&'a GF2> for &'a GF2 {
    open spec fn obeys_mul_spec() -> bool {
        true
    }

    open spec fn mul_req(self, rhs: &'a GF2) -> bool {
        self.wf() && rhs.wf()
    }

    open spec fn mul_spec(self, rhs: &'a GF2) -> GF2 {
        <GF2 as Ring>::mul_spec(*self, *rhs)
    }
}

impl<'a> core::ops::Mul<GF2> for &'a GF2 {
    type Output = GF2;

    fn mul(self, rhs: GF2) -> GF2 {
        GF2::mul_total(self, &rhs)
    }
}

impl<'a> vstd::std_specs::ops::MulSpecImpl<GF2> for &'a GF2 {
    open spec fn obeys_mul_spec() -> bool {
        true
    }

    open spec fn mul_req(self, rhs: GF2) -> bool {
        self.wf() && rhs.wf()
    }

    open spec fn mul_spec(self, rhs: GF2) -> GF2 {
        <GF2 as Ring>::mul_spec(*self, rhs)
    }
}

impl core::ops::Neg for GF2 {
    type Output = Self;

    fn neg(self) -> (r: Self) {
        Self::neg_total(&self)
    }
}

impl vstd::std_specs::ops::NegSpecImpl for GF2 {
    open spec fn obeys_neg_spec() -> bool {
        true
    }

    open spec fn neg_req(self) -> bool {
        self.wf()
    }

    open spec fn neg_spec(self) -> Self {
        <Self as Ring>::neg_spec(self)
    }
}

impl PartialEq for GF2 {
    fn eq(&self, other: &Self) -> (r: bool) {
        Self::eq_total(self, other)
    }
}

impl vstd::std_specs::cmp::PartialEqSpecImpl for GF2 {
    open spec fn obeys_eq_spec() -> bool {
        true
    }

    open spec fn eq_spec(&self, other: &Self) -> bool {
        *self == *other
    }
}

impl Eq for GF2 {}

} // verus!
