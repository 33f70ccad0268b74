//! `Z2K<K>` — integers modulo `2^K` for `1 <= K <= 64`.
//!
//! Values are stored as plain `u64` residues in `[0, 2^K)`; arithmetic wraps
//! modulo `2^64` and then masks to the low `K` bits.
use crate::arith::large_modulus::LargeCanonicalRing;
use crate::arith::modular::{lemma_mod_pow2_64_then_pow2, lemma_mod_ring_laws, lemma_pow2_64_value, pow2_64};
use crate::arith::ring::{
    IntegerRing, Ring, dot_spec, pow_spec, ring_add_assign_scaled_slice, ring_add_assign_slice,
    ring_dot_product, ring_pointwise_mul_assign_slice, ring_pow, ring_scalar_mul_slice,
    ring_sub_assign_slice, seq_wf,
};
use vstd::arithmetic::div_mod::*;
use vstd::arithmetic::power2::*;
use vstd::bits::*;
use vstd::prelude::*;

verus! {

/// An element of `Z_{2^K}`.
#[derive(Clone, Copy, Debug)]
pub struct Z2K<const K: u32> {
    val: u64,
}

/// `x & (2^k - 1) == x mod 2^k` for `1 <= k <= 64`.
proof fn lemma_mask_is_mod(x: u64, mask: u64, k: nat)
    requires
        1 <= k <= 64,
        mask == pow2(k) - 1,
    ensures
        (x & mask) as int == (x as int) % (pow2(k) as int),
        pow2(k) > 0,
{
    lemma_pow2_pos(k);
    if k == 64 {
        lemma_pow2_64_value();
        assert(x & 0xffff_ffff_ffff_ffffu64 == x) by (bit_vector);
        lemma_small_mod(x as nat, pow2(k));
    } else {
        lemma_u64_pow2_no_overflow(k);
        lemma_low_bits_mask_unfold(k);
        lemma_u64_low_bits_mask_is_mod(x, k);
    }
}

impl<const K: u32> Z2K<K> {
    /// `2^K`.
    pub open spec fn modulus_nat() -> nat {
        pow2(K as nat)
    }

    /// The stored residue.
    pub closed spec fn val_spec(self) -> u64 {
        self.val
    }

    /// The mask `2^K - 1` (all ones for `K = 64`).
    fn mask() -> (m: u64)
        ensures
            1 <= K <= 64 ==> m == pow2(K as nat) - 1,
    {
        if K >= 64 {
            proof {
                if K == 64 {
                    lemma_pow2_64_value();
                }
            }
            u64::MAX
        } else {
            proof {
                lemma_u64_pow2_no_overflow(K as nat);
                lemma_u64_shl_is_mul(1, K as u64);
            }
            let one_shifted = 1u64 << K;
            one_shifted.wrapping_sub(1)
        }
    }

    /// The element `val mod 2^K`.
    pub fn new(val: u64) -> (r: Self)
        ensures
            1 <= K <= 64 ==> r.wf() && r.val_spec() as int == (val as int) % (pow2(K as nat) as int),
    {
        let m = Self::mask();
        proof {
            if 1 <= K <= 64 {
                lemma_mask_is_mod(val, m, K as nat);
                lemma_mod_bound(val as int, pow2(K as nat) as int);
            }
        }
        Self { val: val & m }
    }

    /// The stored residue in `[0, 2^K)`.
    pub fn value(&self) -> (r: u64)
        ensures
            r == self.val_spec(),
    {
        self.val
    }

    fn add_total(a: &Self, b: &Self) -> (r: Self)
        ensures
            a.wf() && b.wf() ==> r == <Self as Ring>::add_spec(*a, *b),
    {
        let s = a.val.wrapping_add(b.val);
        let r = Self::new(s);
        proof {
            if a.wf() && b.wf() {
                lemma_pow2_64_value();
                assert(s as int == (a.val + b.val) % (pow2_64() as int));
                lemma_mod_pow2_64_then_pow2(a.val + b.val, K as nat);
            }
        }
        r
    }

    fn sub_total(a: &Self, b: &Self) -> (r: Self)
        ensures
            a.wf() && b.wf() ==> r == <Self as Ring>::sub_spec(*a, *b),
    {
        let s = a.val.wrapping_sub(b.val);
        let r = Self::new(s);
        proof {
            if a.wf() && b.wf() {
                assert(s as int == (a.val - b.val) % (pow2_64() as int));
                lemma_mod_pow2_64_then_pow2(a.val - b.val, K as nat);
            }
        }
        r
    }

    fn mul_total(a: &Self, b: &Self) -> (r: Self)
        ensures
            a.wf() && b.wf() ==> r == <Self as Ring>::mul_spec(*a, *b),
    {
        let s = a.val.wrapping_mul(b.val);
        let r = Self::new(s);
        proof {
            if a.wf() && b.wf() {
                lemma_mod_pow2_64_then_pow2(a.val * b.val, K as nat);
            }
        }
        r
    }

    fn neg_total(a: &Self) -> (r: Self)
        ensures
            a.wf() ==> r == <Self as Ring>::neg_spec(*a),
    {
        if a.val == 0 {
            proof {
                if a.wf() {
                    lemma_mod_self_0(pow2(K as nat) as int);
                }
            }
            *a
        } else {
            let s = 0u64.wrapping_sub(a.val);
            let r = Self::new(s);
            proof {
                if a.wf() {
                    lemma_pow2_64_value();
                    lemma_mod_pow2_64_then_pow2(0 - a.val, K as nat);
                    lemma_mod_add_multiples_vanish(0 - a.val, pow2(K as nat) as int);
                }
            }
            r
        }
    }

    fn eq_total(a: &Self, b: &Self) -> (r: bool)
        ensures
            r == (*a == *b),
    {
        a.val == b.val
    }
}

impl<const K: u32> Ring for Z2K<K> {
    open spec fn params_ok() -> bool {
        1 <= K <= 64
    }

    closed spec fn wf(self) -> bool {
        1 <= K <= 64 && self.val < pow2(K as nat)
    }

    closed spec fn zero_spec() -> Self {
        Z2K { val: 0 }
    }

    closed spec fn one_spec() -> Self {
        Z2K { val: 1 }
    }

    closed spec fn add_spec(a: Self, b: Self) -> Self {
        Z2K { val: ((a.val + b.val) % (pow2(K as nat) as int)) as u64 }
    }

    closed spec fn sub_spec(a: Self, b: Self) -> Self {
        Z2K { val: ((a.val - b.val) % (pow2(K as nat) as int)) as u64 }
    }

    closed spec fn mul_spec(a: Self, b: Self) -> Self {
        Z2K { val: ((a.val * b.val) % (pow2(K as nat) as int)) as u64 }
    }

    closed spec fn neg_spec(a: Self) -> Self {
        Z2K { val: ((pow2(K as nat) - a.val) % (pow2(K as nat) as int)) as u64 }
    }

    proof fn lemma_wf_params(a: Self) {
    }

    proof fn lemma_identities_wf() {
        lemma_pow2_pos(K as nat);
        lemma_pow2_strictly_increases(0, K as nat);
        lemma2_to64();
    }

    proof fn lemma_closed(a: Self, b: Self) {
        lemma_z2k_values(a, b, b);
    }

    proof fn lemma_add_laws(a: Self, b: Self, c: Self) {
        lemma_z2k_values(a, b, c);
        lemma_mod_ring_laws(a.val as int, b.val as int, c.val as int, pow2(K as nat) as int);
        lemma_z2k_values(Self::add_spec(a, b), c, c);
        lemma_z2k_values(b, c, c);
    }

    proof fn lemma_mul_laws(a: Self, b: Self, c: Self) {
        lemma_z2k_values(a, b, c);
        lemma_mod_ring_laws(a.val as int, b.val as int, c.val as int, pow2(K as nat) as int);
        lemma_z2k_values(b, c, c);
        lemma_z2k_values(a, Self::add_spec(b, c), c);
        lemma_z2k_values(Self::mul_spec(a, b), Self::mul_spec(a, c), c);
        lemma_z2k_values(Self::mul_spec(a, b), c, c);
        lemma_z2k_values(a, Self::mul_spec(b, c), c);
        let m = pow2(K as nat) as int;
        lemma_z2k_values(a, c, c);
        let bc = Self::add_spec(b, c);
        assert(bc.val as int == (b.val + c.val) % m);
        assert(Self::mul_spec(a, bc).val as int == (a.val * bc.val) % m);
        assert((a.val * bc.val) % m == (a.val * ((b.val + c.val) % m)) % m);
        assert(Self::mul_spec(a, bc).val == Self::add_spec(Self::mul_spec(a, b), Self::mul_spec(a, c)).val);
    }

    fn zero() -> (r: Self) {
        proof {
            lemma_pow2_pos(K as nat);
        }
        Z2K { val: 0 }
    }

    fn one() -> (r: Self) {
        proof {
            Self::lemma_identities_wf();
        }
        Z2K { val: 1 }
    }

    fn is_zero(&self) -> (b: bool) {
        self.val == 0
    }

    fn is_one(&self) -> (b: bool) {
        self.val == 1
    }

    fn add_ref(a: &Self, b: &Self) -> (r: Self) {
        proof {
            Self::lemma_closed(*a, *b);
        }
        Self::add_total(a, b)
    }

    fn sub_ref(a: &Self, b: &Self) -> (r: Self) {
        proof {
            Self::lemma_closed(*a, *b);
        }
        Self::sub_total(a, b)
    }

    fn mul_ref(a: &Self, b: &Self) -> (r: Self) {
        proof {
            Self::lemma_closed(*a, *b);
        }
        Self::mul_total(a, b)
    }

    fn neg_ref(a: &Self) -> (r: Self) {
        proof {
            Self::lemma_closed(*a, *a);
        }
        Self::neg_total(a)
    }
}

/// Values of the ring operations on `Z2K` elements.
proof fn lemma_z2k_values<const K: u32>(a: Z2K<K>, b: Z2K<K>, c: Z2K<K>)
    requires
        a.wf(),
        b.wf(),
        c.wf(),
    ensures
        pow2(K as nat) > 1,
        <Z2K<K> as Ring>::add_spec(a, b).val as int == (a.val + b.val) % (pow2(K as nat) as int),
        <Z2K<K> as Ring>::sub_spec(a, b).val as int == (a.val - b.val) % (pow2(K as nat) as int),
        <Z2K<K> as Ring>::mul_spec(a, b).val as int == (a.val * b.val) % (pow2(K as nat) as int),
        <Z2K<K> as Ring>::neg_spec(a).val as int == (pow2(K as nat) - a.val) % (pow2(K as nat) as int),
        <Z2K<K> as Ring>::add_spec(a, b).wf(),
        <Z2K<K> as Ring>::sub_spec(a, b).wf(),
        <Z2K<K> as Ring>::mul_spec(a, b).wf(),
        <Z2K<K> as Ring>::neg_spec(a).wf(),
{
    let m = pow2(K as nat) as int;
    lemma_pow2_pos(K as nat);
    lemma_pow2_strictly_increases(0, K as nat);
    lemma2_to64();
    if K < 64 {
        lemma_u64_pow2_no_overflow(K as nat);
    } else {
        lemma_pow2_64_value();
    }
    lemma_mod_bound(a.val + b.val, m);
    lemma_mod_bound(a.val - b.val, m);
    lemma_mod_bound(a.val * b.val, m);
    lemma_mod_bound(m - a.val, m);
}

impl<const K: u32> IntegerRing for Z2K<K> {
    open spec fn modulus_spec() -> nat {
        pow2(K as nat)
    }

    closed spec fn value(self) -> nat {
        self.val as nat
    }

    proof fn lemma_value(a: Self, b: Self) {
        lemma_z2k_values(a, b, b);
    }

    proof fn lemma_identity_values() {
        Self::lemma_identities_wf();
        lemma2_to64_rest();
        if K < 64 {
            lemma_pow2_strictly_increases(K as nat, 64);
        }
    }

    fn modulus() -> (m: u64) {
        if K >= 64 {
            proof {
                lemma_pow2_64_value();
                vstd::arithmetic::div_mod::lemma_mod_self_0(pow2_64() as int);
            }
            0
        } else {
            proof {
                lemma_u64_pow2_no_overflow(K as nat);
                lemma_u64_shl_is_mul(1, K as u64);
                lemma_small_mod(pow2(K as nat), pow2_64());
            }
            1u64 << K
        }
    }

    fn from_u64(val: u64) -> (r: Self) {
        Self::new(val)
    }

    fn to_u64(&self) -> (r: u64) {
        self.val
    }

    fn reduce(&self) -> (r: Self) {
        *self
    }
}


impl<const K: u32> LargeCanonicalRing for Z2K<K> {
    type Canonical = u64;

    open spec fn canonical_modulus() -> nat {
        Self::modulus_spec()
    }

    open spec fn canonical_value(self) -> nat {
        self.value()
    }

    proof fn lemma_canonical(a: Self, b: Self) {
        Self::lemma_value(a, b);
    }

    proof fn lemma_modulus_fits() {
        if K < 64 {
            vstd::arithmetic::power2::lemma_pow2_strictly_increases(K as nat, 64);
        }
        vstd::arithmetic::power2::lemma2_to64();
    }

    proof fn lemma_canonical_identities() {
        Self::lemma_identity_values();
    }

    fn modulus_canonical() -> (m: u64) {
        proof {
            if K < 64 {
                vstd::arithmetic::power2::lemma_pow2_strictly_increases(K as nat, 64);
            }
            vstd::arithmetic::power2::lemma2_to64();
        }
        Self::modulus()
    }

    fn from_small_u64(v: u64) -> (r: Self) {
        Self::from_u64(v)
    }

    fn from_canonical(c: &u64) -> (r: Self) {
        Self::from_u64(*c)
    }

    fn to_canonical(&self) -> (c: u64) {
        self.val
    }

    fn try_to_u64(&self) -> (r: Option<u64>) {
        Some(self.val)
    }

    fn try_to_u128(&self) -> (r: Option<u128>) {
        Some(self.val as u128)
    }
}
impl<const K: u32> Z2K<K> {
    /// `dst[i] += src[i]` for every index.
    pub fn add_assign_slice(dst: &mut [Self], src: &[Self])
        requires
            old(dst)@.len() == src@.len(),
            seq_wf(old(dst)@),
            seq_wf(src@),
        ensures
            final(dst)@.len() == old(dst)@.len(),
            forall|i: int|
                0 <= i < src@.len() ==> #[trigger] final(dst)@[i] == <Self as Ring>::add_spec(
                    old(dst)@[i],
                    src@[i],
                ),
            seq_wf(final(dst)@),
    {
        ring_add_assign_slice(dst, src)
    }

    /// `dst[i] -= src[i]` for every index.
    pub fn sub_assign_slice(dst: &mut [Self], src: &[Self])
        requires
            old(dst)@.len() == src@.len(),
            seq_wf(old(dst)@),
            seq_wf(src@),
        ensures
            final(dst)@.len() == old(dst)@.len(),
            forall|i: int|
                0 <= i < src@.len() ==> #[trigger] final(dst)@[i] == <Self as Ring>::sub_spec(
                    old(dst)@[i],
                    src@[i],
                ),
            seq_wf(final(dst)@),
    {
        ring_sub_assign_slice(dst, src)
    }

    /// `dst[i] *= scalar` for every index.
    pub fn scalar_mul_slice(dst: &mut [Self], scalar: &Self)
        requires
            seq_wf(old(dst)@),
            scalar.wf(),
        ensures
            final(dst)@.len() == old(dst)@.len(),
            forall|i: int|
                0 <= i < old(dst)@.len() ==> #[trigger] final(dst)@[i] == <Self as Ring>::mul_spec(
                    old(dst)@[i],
                    *scalar,
                ),
            seq_wf(final(dst)@),
    {
        ring_scalar_mul_slice(dst, scalar)
    }

    /// `dst[i] *= rhs[i]` for every index.
    pub fn pointwise_mul_assign_slice(dst: &mut [Self], rhs: &[Self])
        requires
            old(dst)@.len() == rhs@.len(),
            seq_wf(old(dst)@),
            seq_wf(rhs@),
        ensures
            final(dst)@.len() == old(dst)@.len(),
            forall|i: int|
                0 <= i < rhs@.len() ==> #[trigger] final(dst)@[i] == <Self as Ring>::mul_spec(
                    old(dst)@[i],
                    rhs@[i],
                ),
            seq_wf(final(dst)@),
    {
        ring_pointwise_mul_assign_slice(dst, rhs)
    }

    /// `sum_i lhs[i] * rhs[i]`.
    pub fn dot_product(lhs: &[Self], rhs: &[Self]) -> (r: Self)
        requires
            lhs@.len() == rhs@.len(),
            seq_wf(lhs@),
            seq_wf(rhs@),
            <Self as Ring>::params_ok(),
        ensures
            r == dot_spec(lhs@, rhs@),
            r.wf(),
    {
        ring_dot_product(lhs, rhs)
    }

    /// `dst[i] += src[i] * scalar` for every index.
    pub fn add_assign_scaled_slice(dst: &mut [Self], src: &[Self], scalar: &Self)
        requires
            old(dst)@.len() == src@.len(),
            seq_wf(old(dst)@),
            seq_wf(src@),
            scalar.wf(),
        ensures
            final(dst)@.len() == old(dst)@.len(),
            forall|i: int|
                0 <= i < src@.len() ==> #[trigger] final(dst)@[i] == <Self as Ring>::add_spec(
                    old(dst)@[i],
                    <Self as Ring>::mul_spec(src@[i], *scalar),
                ),
            seq_wf(final(dst)@),
    {
        ring_add_assign_scaled_slice(dst, src, scalar)
    }

    /// `self^exp` by repeated squaring.
    pub fn pow(&self, exp: u64) -> (r: Self)
        requires
            self.wf(),
        ensures
            r == pow_spec(*self, exp as nat),
            r.wf(),
    {
        ring_pow(self, exp)
    }
}

impl<const K: u32> core::ops::Add for Z2K<K> {
    type Output = Self;

    fn add(self, rhs: Self) -> (r: Self) {
        Self::add_total(&self, &rhs)
    }
}

impl<const K: u32> vstd::std_specs::ops::AddSpecImpl for Z2K<K> {
    open spec fn obeys_add_spec() -> bool {
        true
    }

    open spec fn add_req(self, rhs: Self) -> bool {
        self.wf() && rhs.wf()
    }

    open spec fn add_spec(self, rhs: Self) -> Self {
        <Self as Ring>::add_spec(self, rhs)
    }
}

impl<'a, const K: u32> core::ops::Add<&'a Z2K<K>> for Z2K<K> {
    type Output = Self;

    fn add(self, rhs: &'a Z2K<K>) -> Self {
        Self::add_total(&self, rhs)
    }
}

impl<'a, const K: u32> vstd::std_specs::ops::AddSpecImpl<&'a Z2K<K>> for Z2K<K> {
    open spec fn obeys_add_spec() -> bool {
        true
    }

    open spec fn add_req(self, rhs: &'a Z2K<K>) -> bool {
        self.wf() && rhs.wf()
    }

    open spec fn add_spec(self, rhs: &'a Z2K<K>) -> Self {
        <Self as Ring>::add_spec(self, *rhs)
    }
}

impl<const K: u32> core::ops::AddAssign for Z2K<K> {
    fn add_assign(&mut self, rhs: Self)
        ensures
            old(self).wf() && rhs.wf() ==> *final(self) == <Self as Ring>::add_spec(*old(self), rhs),
    {
        *self = Self::add_total(self, &rhs);
    }
}

impl<'a, const K: u32> core::ops::AddAssign<&'a Z2K<K>> for Z2K<K> {
    fn add_assign(&mut self, rhs: &'a Z2K<K>)
        ensures
            old(self).wf() && rhs.wf() ==> *final(self) == <Self as Ring>::add_spec(*old(self), *rhs),
    {
        *self = Self::add_total(self, rhs);
    }
}

impl<'a, const K: u32> core::ops::Add<&'a Z2K<K>> for &'a Z2K<K> {
    type Output = Z2K<K>;

    fn add(self, rhs: &'a Z2K<K>) -> Z2K<K> {
        Z2K::<K>::add_total(self, rhs)
    }
}

impl<'a, const K: u32> vstd::std_specs::ops::AddSpecImpl<&'a Z2K<K>> for &'a Z2K<K> {
    open spec fn obeys_add_spec() -> bool {
        true
    }

    open spec fn add_req(self, rhs: &'a Z2K<K>) -> bool {
        self.wf() && rhs.wf()
    }

    open spec fn add_spec(self, rhs: &'a Z2K<K>) -> Z2K<K> {
        <Z2K<K> as Ring>::add_spec(*self, *rhs)
    }
}

impl<'a, const K: u32> core::ops::Add<Z2K<K>> for &'a Z2K<K> {
    type Output = Z2K<K>;

    fn add(self, rhs: Z2K<K>) -> Z2K<K> {
        Z2K::<K>::add_total(self, &rhs)
    }
}

impl<'a, const K: u32> vstd::std_specs::ops::AddSpecImpl<Z2K<K>> for &'a Z2K<K> {
    open spec fn obeys_add_spec() -> bool {
        true
    }

    open spec fn add_req(self, rhs: Z2K<K>) -> bool {
        self.wf() && rhs.wf()
    }

    open spec fn add_spec(self, rhs: Z2K<K>) -> Z2K<K> {
        <Z2K<K> as Ring>::add_spec(*self, rhs)
    }
}

impl<const K: u32> core::ops::Sub for Z2K<K> {
    type Output = Self;

    fn sub(self, rhs: Self) -> (r: Self) {
        Self::sub_total(&self, &rhs)
    }
}

impl<const K: u32> vstd::std_specs::ops::SubSpecImpl for Z2K<K> {
    open spec fn obeys_sub_spec() -> bool {
        true
    }

    open spec fn sub_req(self, rhs: Self) -> bool {
        self.wf() && rhs.wf()
    }

    open spec fn sub_spec(self, rhs: Self) -> Self {
        <Self as Ring>::sub_spec(self, rhs)
    }
}

impl<'a, const K: u32> core::ops::Sub<&'a Z2K<K>> for Z2K<K> {
    type Output = Self;

    fn sub(self, rhs: &'a Z2K<K>) -> Self {
        Self::sub_total(&self, rhs)
    }
}

impl<'a, const K: u32> vstd::std_specs::ops::SubSpecImpl<&'a Z2K<K>> for Z2K<K> {
    open spec fn obeys_sub_spec() -> bool {
        true
    }

    open spec fn sub_req(self, rhs: &'a Z2K<K>) -> bool {
        self.wf() && rhs.wf()
    }

    open spec fn sub_spec(self, rhs: &'a Z2K<K>) -> Self {
        <Self as Ring>::sub_spec(self, *rhs)
    }
}

impl<const K: u32> core::ops::SubAssign for Z2K<K> {
    fn sub_assign(&mut self, rhs: Self)
        ensures
            old(self).wf() && rhs.wf() ==> *final(self) == <Self as Ring>::sub_spec(*old(self), rhs),
    {
        *self = Self::sub_total(self, &rhs);
    }
}

impl<'a, const K: u32> core::ops::SubAssign<&'a Z2K<K>> for Z2K<K> {
    fn sub_assign(&mut self, rhs: &'a Z2K<K>)
        ensures
            old(self).wf() && rhs.wf() ==> *final(self) == <Self as Ring>::sub_spec(*old(self), *rhs),
    {
        *self = Self::sub_total(self, rhs);
    }
}

impl<'a, const K: u32> core::ops::Sub<&'a Z2K<K>> for &'a Z2K<K> {
    type Output = Z2K<K>;

    fn sub(self, rhs: &'a Z2K<K>) -> Z2K<K> {
        Z2K::<K>::sub_total(self, rhs)
    }
}

impl<'a, const K: u32> vstd::std_specs::ops::SubSpecImpl<&'a Z2K<K>> for &'a Z2K<K> {
    open spec fn obeys_sub_spec() -> bool {
        true
    }

    open spec fn sub_req(self, rhs: &'a Z2K<K>) -> bool {
        self.wf() && rhs.wf()
    }

    open spec fn sub_spec(self, rhs: &'a Z2K<K>) -> Z2K<K> {
        <Z2K<K> as Ring>::sub_spec(*self, *rhs)
    }
}

impl<'a, const K: u32> core::ops::Sub<Z2K<K>> for &'a Z2K<K> {
    type Output = Z2K<K>;

    fn sub(self, rhs: Z2K<K>) -> Z2K<K> {
        Z2K::<K>::sub_total(self, &rhs)
    }
}

impl<'a, const K: u32> vstd::std_specs::ops::SubSpecImpl<Z2K<K>> for &'a Z2K<K> {
    open spec fn obeys_sub_spec() -> bool {
        true
    }

    open spec fn sub_req(self, rhs: Z2K<K>) -> bool {
        self.wf() && rhs.wf()
    }

    open spec fn sub_spec(self, rhs: Z2K<K>) -> Z2K<K> {
        <Z2K<K> as Ring>::sub_spec(*self, rhs)
    }
}

impl<const K: u32> core::ops::Mul for Z2K<K> {
    type Output = Self;

    fn mul(self, rhs: Self) -> (r: Self) {
        Self::mul_total(&self, &rhs)
    }
}

impl<const K: u32> vstd::std_specs::ops::MulSpecImpl for Z2K<K> {
    open spec fn obeys_mul_spec() -> bool {
        true
    }

    open spec fn mul_req(self, rhs: Self) -> bool {
        self.wf() && rhs.wf()
    }

    open spec fn mul_spec(self, rhs: Self) -> Self {
        <Self as Ring>::mul_spec(self, rhs)
    }
}

impl<'a, const K: u32> core::ops::Mul<&'a Z2K<K>> for Z2K<K> {
    type Output = Self;

    fn mul(self, rhs: &'a Z2K<K>) -> Self {
        Self::mul_total(&self, rhs)
    }
}

impl<'a, const K: u32> vstd::std_specs::ops::MulSpecImpl<&'a Z2K<K>> for Z2K<K> {
    open spec fn obeys_mul_spec() -> bool {
        true
    }

    open spec fn mul_req(self, rhs: &'a Z2K<K>) -> bool {
        self.wf() && rhs.wf()
    }

    open spec fn mul_spec(self, rhs: &'a Z2K<K>) -> Self {
        <Self as Ring>::mul_spec(self, *rhs)
    }
}

impl<const K: u32> core::ops::MulAssign for Z2K<K> {
    fn mul_assign(&mut self, rhs: Self)
        ensures
            old(self).wf() && rhs.wf() ==> *final(self) == <Self as Ring>::mul_spec(*old(self), rhs),
    {
        *self = Self::mul_total(self, &rhs);
    }
}

impl<'a, const K: u32> core::ops::MulAssign<&'a Z2K<K>> for Z2K<K> {
    fn mul_assign(&mut self, rhs: &'a Z2K<K>)
        ensures
            old(self).wf() && rhs.wf() ==> *final(self) == <Self as Ring>::mul_spec(*old(self), *rhs),
    {
        *self = Self::mul_total(self, rhs);
    }
}

impl<'a, const K: u32> core::ops::Mul<&'a Z2K<K>> for &'a Z2K<K> {
    type Output = Z2K<K>;

    fn mul(self, rhs: &'a Z2K<K>) -> Z2K<K> {
        Z2K::<K>::mul_total(self, rhs)
    }
}

impl<'a, const K: u32> vstd::std_specs::ops::MulSpecImpl<&'a Z2K<K>> for &'a Z2K<K> {
    open spec fn obeys_mul_spec() -> bool {
        true
    }

    open spec fn mul_req(self, rhs: &'a Z2K<K>) -> bool {
        self.wf() && rhs.wf()
    }

    open spec fn mul_spec(self, rhs: &'a Z2K<K>) -> Z2K<K> {
        <Z2K<K> as Ring>::mul_spec(*self, *rhs)
    }
}

impl<'a, const K: u32> core::ops::Mul<Z2K<K>> for &'a Z2K<K> {
    type Output = Z2K<K>;

    fn mul(self, rhs: Z2K<K>) -> Z2K<K> {
        Z2K::<K>::mul_total(self, &rhs)
    }
}

impl<'a, const K: u32> vstd::std_specs::ops::MulSpecImpl<Z2K<K>> for &'a Z2K<K> {
    open spec fn obeys_mul_spec() -> bool {
        true
    }

    open spec fn mul_req(self, rhs: Z2K<K>) -> bool {
        self.wf() && rhs.wf()
    }

    open spec fn mul_spec(self, rhs: Z2K<K>) -> Z2K<K> {
        <Z2K<K> as Ring>::mul_spec(*self, rhs)
    }
}

impl<const K: u32> core::ops::Neg for Z2K<K> {
    type Output = Self;

    fn neg(self) -> (r: Self) {
        Self::neg_total(&self)
    }
}

impl<const K: u32> vstd::std_specs::ops::NegSpecImpl for Z2K<K> {
    open spec fn obeys_neg_spec() -> bool {
        true
    }

    open spec fn neg_req(self) -> bool {
        self.wf()
    }

    open spec fn neg_spec(self) -> Self {
        <Self as Ring>::neg_spec(self)
    }
}

impl<const K: u32> PartialEq for Z2K<K> {
    fn eq(&self, other: &Self) -> (r: bool) {
        Self::eq_total(self, other)
    }
}

impl<const K: u32> vstd::std_specs::cmp::PartialEqSpecImpl for Z2K<K> {
    open spec fn obeys_eq_spec() -> bool {
        true
    }

    open spec fn eq_spec(&self, other: &Self) -> bool {
        *self == *other
    }
}

impl<const K: u32> Eq for Z2K<K> {}

} // verus!
