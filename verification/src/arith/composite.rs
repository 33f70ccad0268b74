//! `CompositeRing` — `Z_q` where `q` is a product of pairwise-coprime factors.
//!
//! Internally stores values in RNS (Residue Number System) representation
//! for efficient arithmetic. Each operation is performed component-wise
//! across the pairwise-coprime limbs.
use crate::arith::bigint::BigUint;
use crate::arith::rns::{
    RnsBasis, lemma_rns_limb_ops, rns_add_limb, rns_sub_limb, valid_basis, valid_residues,
};
use crate::serialize::{
    CanonicalSerialize, SerializationError, append_bytes, byte_pow, le_bytes_to_u64, le_encode,
    le_value, lemma_le_encode, lemma_le_encode_value, u64_to_le_bytes,
};
use std::sync::Arc;
use vstd::arithmetic::div_mod::{lemma_mod_bound, lemma_small_mod};
use vstd::prelude::*;

verus! {

/// A modular integer in RNS representation for a composite modulus.
///
/// The modulus `q = p_0 * p_1 * ... * p_{k-1}` is stored as an [`RnsBasis`],
/// and the value is stored as residues `[x mod p_0, x mod p_1, ...]`.
#[derive(Clone, Debug)]
pub struct CompositeRing {
    /// The RNS basis (shared across all elements with the same modulus).
    basis: Arc<RnsBasis>,
    /// Residues: `residues[i] = value mod basis.primes[i]`.
    residues: Vec<u64>,
}

impl CompositeRing {
    /// The basis of the element.
    pub closed spec fn basis_view(&self) -> RnsBasis {
        *self.basis
    }

    /// The residues of the element.
    pub closed spec fn residues_view(&self) -> Seq<u64> {
        self.residues@
    }

    /// A valid basis and one reduced residue per modulus.
    pub open spec fn wf(&self) -> bool {
        self.basis_view().wf() && valid_residues(self.basis_view()@, self.residues_view())
    }

    /// Create a new element from a `u64` value and an RNS basis.
    pub fn from_u64_with_basis(val: u64, basis: Arc<RnsBasis>) -> (r: Self)
        requires
            basis.wf(),
        ensures
            r.wf(),
            r.basis_view() == *basis,
            forall|i: int| 0 <= i < basis@.len() ==> #[trigger] r.residues_view()[i] == val % basis@[i],
    {
        let residues = basis.decompose(val);
        proof {
            basis.lemma_wf();
            assert forall|i: int| 0 <= i < basis@.len() implies #[trigger] residues@[i] < basis@[i] by {
                assert(basis@[i] > 1);
            }
        }
        CompositeRing { basis, residues }
    }

    /// Create a new element from canonical residues and an RNS basis; the
    /// residues must be one per modulus, each below its modulus.
    pub fn from_residues_with_basis(residues: Vec<u64>, basis: Arc<RnsBasis>) -> (r: Result<
        Self,
        SerializationError,
    >)
        requires
            basis.wf(),
        ensures
            valid_residues(basis@, residues@) <==> r is Ok,
            r matches Ok(v) ==> v.wf() && v.basis_view() == *basis && v.residues_view() == residues@,
            r matches Err(e) ==> e is InvalidData,
    {
        let n = basis.num_limbs();
        if residues.len() != n {
            return Err(SerializationError::InvalidData("residue count does not match the basis".to_owned()));
        }
        let mut i: usize = 0;
        while i < n
            invariant
                n == basis@.len(),
                n == residues@.len(),
                i <= n,
                forall|k: int| 0 <= k < i ==> #[trigger] residues@[k] < basis@[k],
            decreases n - i,
        {
            if residues[i] >= basis.moduli()[i] {
                return Err(SerializationError::InvalidData("residue is not below its modulus".to_owned()));
            }
            i = i + 1;
        }
        Ok(CompositeRing { basis, residues })
    }

    /// Create a new element from a fixed-limb canonical integer and an RNS basis.
    pub fn from_canonical_with_basis<const N: usize>(value: &BigUint<N>, basis: Arc<RnsBasis>) -> (r: Self)
        requires
            basis.wf(),
        ensures
            r.wf(),
            r.basis_view() == *basis,
            forall|i: int|
                0 <= i < basis@.len() ==> #[trigger] r.residues_view()[i] as nat == value.value() % (
                basis@[i] as nat),
    {
        let residues = basis.decompose_biguint(value);
        proof {
            basis.lemma_wf();
            assert forall|i: int| 0 <= i < basis@.len() implies #[trigger] residues@[i] < basis@[i] by {
                assert(basis@[i] > 1);
                lemma_mod_bound(value.value() as int, basis@[i] as int);
            }
        }
        CompositeRing { basis, residues }
    }

    /// Create the zero element for the given basis.
    pub fn zero_with_basis(basis: Arc<RnsBasis>) -> (r: Self)
        requires
            basis.wf(),
        ensures
            r.wf(),
            r.basis_view() == *basis,
            forall|i: int| 0 <= i < basis@.len() ==> #[trigger] r.residues_view()[i] == 0,
    {
        let n = basis.num_limbs();
        let mut residues: Vec<u64> = Vec::new();
        let mut i: usize = 0;
        while i < n
            invariant
                n == basis@.len(),
                i <= n,
                residues@.len() == i,
                forall|k: int| 0 <= k < i ==> #[trigger] residues@[k] == 0,
            decreases n - i,
        {
            residues.push(0);
            i = i + 1;
        }
        proof {
            basis.lemma_wf();
            assert forall|i: int| 0 <= i < basis@.len() implies #[trigger] residues@[i] < basis@[i] by {
                assert(basis@[i] > 1);
            }
        }
        CompositeRing { basis, residues }
    }

    /// Create the one element for the given basis.
    pub fn one_with_basis(basis: Arc<RnsBasis>) -> (r: Self)
        requires
            basis.wf(),
        ensures
            r.wf(),
            r.basis_view() == *basis,
            forall|i: int| 0 <= i < basis@.len() ==> #[trigger] r.residues_view()[i] == 1,
    {
        let residues = basis.decompose(1);
        proof {
            basis.lemma_wf();
            assert forall|i: int| 0 <= i < basis@.len() implies #[trigger] residues@[i] == 1 by {
                assert(basis@[i] > 1);
                lemma_small_mod(1, basis@[i] as nat);
            }
        }
        CompositeRing { basis, residues }
    }

    /// Get the RNS basis.
    pub fn basis(&self) -> (r: &Arc<RnsBasis>)
        ensures
            **r == self.basis_view(),
    {
        &self.basis
    }

    /// Get the residues.
    pub fn residues(&self) -> (r: &[u64])
        ensures
            r@ == self.residues_view(),
    {
        self.residues.as_slice()
    }

    /// Reconstruct the value into a fixed-limb canonical integer: the unique
    /// value below the modulus with the element's residues.
    pub fn to_canonical<const N: usize>(&self) -> (r: BigUint<N>)
        requires
            self.wf(),
            self.basis_view().modulus_spec() < BigUint::<N>::bound(),
        ensures
            r.value() < self.basis_view().modulus_spec(),
            forall|i: int|
                0 <= i < self.basis_view()@.len() ==> #[trigger] (r.value() % (
                self.basis_view()@[i] as nat)) == self.residues_view()[i],
    {
        self.basis.reconstruct_biguint(self.residues.as_slice())
    }

    /// Return the value as `u128`; the modulus must fit in 128 bits.
    pub fn try_to_u128(&self) -> (r: Option<u128>)
        requires
            self.wf(),
            self.basis_view().modulus_spec() < 0x1_0000_0000_0000_0000_0000_0000_0000_0000,
        ensures
            r is Some,
            r.unwrap() < self.basis_view().modulus_spec(),
            forall|i: int|
                0 <= i < self.basis_view()@.len() ==> #[trigger] (r.unwrap() % (
                self.basis_view()@[i] as u128)) == self.residues_view()[i],
    {
        proof {
            crate::arith::bigint::lemma_limb_pow(0);
            crate::arith::bigint::lemma_limb_pow(1);
        }
        self.to_canonical::<2>().try_to_u128()
    }

    /// Reconstruct the value using CRT as a `u128`; the modulus must fit in 128 bits.
    pub fn to_u128(&self) -> (r: u128)
        requires
            self.wf(),
            self.basis_view().modulus_spec() < 0x1_0000_0000_0000_0000_0000_0000_0000_0000,
        ensures
            r < self.basis_view().modulus_spec(),
            forall|i: int|
                0 <= i < self.basis_view()@.len() ==> #[trigger] (r % (self.basis_view()@[i] as u128))
                    == self.residues_view()[i],
    {
        self.try_to_u128().expect("CompositeRing value does not fit in u128")
    }

    /// Elementwise equality of two residue vectors.
    fn residues_eq(a: &Vec<u64>, b: &Vec<u64>) -> (r: bool)
        ensures
            r == (a@ == b@),
    {
        if a.len() != b.len() {
            return false;
        }
        let mut i: usize = 0;
        while i < a.len()
            invariant
                a@.len() == b@.len(),
                i <= a@.len(),
                forall|k: int| 0 <= k < i ==> a@[k] == b@[k],
            decreases a@.len() - i,
        {
            if a[i] != b[i] {
                return false;
            }
            i = i + 1;
        }
        proof {
            assert(a@ =~= b@);
        }
        true
    }

    /// `self + rhs`, component-wise.
    fn add_residues(self, rhs: &Self) -> (r: Self)
        requires
            self.wf(),
            rhs.wf(),
            self.basis_view()@ == rhs.basis_view()@,
        ensures
            r.wf(),
            r.basis_view() == self.basis_view(),
            forall|i: int|
                0 <= i < self.basis_view()@.len() ==> #[trigger] r.residues_view()[i] == (
                self.residues_view()[i] + rhs.residues_view()[i]) % (self.basis_view()@[i] as int),
    {
        let mut s = self;
        let ghost old_res = s.residues@;
        s.basis.add_assign_into(s.residues.as_mut_slice(), rhs.residues.as_slice());
        proof {
            assert forall|i: int| 0 <= i < s.basis_view()@.len() implies #[trigger] s.residues@[i]
                == (old_res[i] + rhs.residues_view()[i]) % (s.basis_view()@[i] as int) by {
                lemma_rns_limb_ops(old_res[i], rhs.residues_view()[i], s.basis_view()@[i]);
            }
            assert forall|i: int| 0 <= i < s.basis_view()@.len() implies #[trigger] s.residues@[i]
                < s.basis_view()@[i] by {
                lemma_mod_bound(old_res[i] + rhs.residues_view()[i], s.basis_view()@[i] as int);
            }
        }
        s
    }

    /// `self - rhs`, component-wise.
    fn sub_residues(self, rhs: &Self) -> (r: Self)
        requires
            self.wf(),
            rhs.wf(),
            self.basis_view()@ == rhs.basis_view()@,
        ensures
            r.wf(),
            r.basis_view() == self.basis_view(),
            forall|i: int|
                0 <= i < self.basis_view()@.len() ==> #[trigger] r.residues_view()[i] == (
                self.residues_view()[i] - rhs.residues_view()[i]) % (self.basis_view()@[i] as int),
    {
        let mut s = self;
        let ghost old_res = s.residues@;
        s.basis.sub_assign_into(s.residues.as_mut_slice(), rhs.residues.as_slice());
        proof {
            assert forall|i: int| 0 <= i < s.basis_view()@.len() implies #[trigger] s.residues@[i]
                == (old_res[i] - rhs.residues_view()[i]) % (s.basis_view()@[i] as int) by {
                lemma_rns_limb_ops(old_res[i], rhs.residues_view()[i], s.basis_view()@[i]);
            }
            assert forall|i: int| 0 <= i < s.basis_view()@.len() implies #[trigger] s.residues@[i]
                < s.basis_view()@[i] by {
                lemma_mod_bound(old_res[i] - rhs.residues_view()[i], s.basis_view()@[i] as int);
            }
        }
        s
    }

    /// `self * rhs`, component-wise.
    fn mul_residues(self, rhs: &Self) -> (r: Self)
        requires
            self.wf(),
            rhs.wf(),
            self.basis_view()@ == rhs.basis_view()@,
        ensures
            r.wf(),
            r.basis_view() == self.basis_view(),
            forall|i: int|
                0 <= i < self.basis_view()@.len() ==> #[trigger] r.residues_view()[i] as nat == (
                self.residues_view()[i] as nat * rhs.residues_view()[i] as nat) % (
                self.basis_view()@[i] as nat),
    {
        let mut s = self;
        s.basis.mul_assign_into(s.residues.as_mut_slice(), rhs.residues.as_slice());
        proof {
            s.basis.lemma_wf();
            assert forall|i: int| 0 <= i < s.basis_view()@.len() implies #[trigger] s.residues@[i]
                < s.basis_view()@[i] by {
                assert(s.basis_view()@[i] > 1);
            }
        }
        s
    }
}

impl core::ops::Add for CompositeRing {
    type Output = Self;

    fn add(self, rhs: Self) -> (r: Self)
        ensures
            r.wf(),
            r.basis_view() == self.basis_view(),
            forall|i: int|
                0 <= i < self.basis_view()@.len() ==> #[trigger] r.residues_view()[i] == (self.residues_view()[i] + rhs.residues_view()[i]) % (self.basis_view()@[i] as int),
    {
        self.add_residues(&rhs)
    }
}

impl vstd::std_specs::ops::AddSpecImpl for CompositeRing {
    open spec fn obeys_add_spec() -> bool {
        false
    }

    open spec fn add_req(self, rhs: Self) -> bool {
        self.wf() && rhs.wf() && self.basis_view()@ == rhs.basis_view()@
    }

    open spec fn add_spec(self, rhs: Self) -> Self {
        arbitrary()
    }
}

impl<'a> core::ops::Add<&'a CompositeRing> for CompositeRing {
    type Output = Self;

    fn add(self, rhs: &'a CompositeRing) -> (r: Self)
        ensures
            r.wf(),
            r.basis_view() == self.basis_view(),
            forall|i: int|
                0 <= i < self.basis_view()@.len() ==> #[trigger] r.residues_view()[i] == (self.residues_view()[i] + rhs.residues_view()[i]) % (self.basis_view()@[i] as int),
    {
        self.add_residues(rhs)
    }
}

impl<'a> vstd::std_specs::ops::AddSpecImpl<&'a CompositeRing> for CompositeRing {
    open spec fn obeys_add_spec() -> bool {
        false
    }

    open spec fn add_req(self, rhs: &'a CompositeRing) -> bool {
        self.wf() && rhs.wf() && self.basis_view()@ == rhs.basis_view()@
    }

    open spec fn add_spec(self, rhs: &'a CompositeRing) -> Self {
        arbitrary()
    }
}

impl core::ops::Sub for CompositeRing {
    type Output = Self;

    fn sub(self, rhs: Self) -> (r: Self)
        ensures
            r.wf(),
            r.basis_view() == self.basis_view(),
            forall|i: int|
                0 <= i < self.basis_view()@.len() ==> #[trigger] r.residues_view()[i] == (self.residues_view()[i] - rhs.residues_view()[i]) % (self.basis_view()@[i] as int),
    {
        self.sub_residues(&rhs)
    }
}

impl vstd::std_specs::ops::SubSpecImpl for CompositeRing {
    open spec fn obeys_sub_spec() -> bool {
        false
    }

    open spec fn sub_req(self, rhs: Self) -> bool {
        self.wf() && rhs.wf() && self.basis_view()@ == rhs.basis_view()@
    }

    open spec fn sub_spec(self, rhs: Self) -> Self {
        arbitrary()
    }
}

impl<'a> core::ops::Sub<&'a CompositeRing> for CompositeRing {
    type Output = Self;

    fn sub(self, rhs: &'a CompositeRing) -> (r: Self)
        ensures
            r.wf(),
            r.basis_view() == self.basis_view(),
            forall|i: int|
                0 <= i < self.basis_view()@.len() ==> #[trigger] r.residues_view()[i] == (self.residues_view()[i] - rhs.residues_view()[i]) % (self.basis_view()@[i] as int),
    {
        self.sub_residues(rhs)
    }
}

impl<'a> vstd::std_specs::ops::SubSpecImpl<&'a CompositeRing> for CompositeRing {
    open spec fn obeys_sub_spec() -> bool {
        false
    }

    open spec fn sub_req(self, rhs: &'a CompositeRing) -> bool {
        self.wf() && rhs.wf() && self.basis_view()@ == rhs.basis_view()@
    }

    open spec fn sub_spec(self, rhs: &'a CompositeRing) -> Self {
        arbitrary()
    }
}

impl core::ops::Mul for CompositeRing {
    type Output = Self;

    fn mul(self, rhs: Self) -> (r: Self)
        ensures
            r.wf(),
            r.basis_view() == self.basis_view(),
            forall|i: int|
                0 <= i < self.basis_view()@.len() ==> #[trigger] r.residues_view()[i] as nat == (self.residues_view()[i] as nat * rhs.residues_view()[i] as nat) % (self.basis_view()@[i] as nat),
    {
        self.mul_residues(&rhs)
    }
}

impl vstd::std_specs::ops::MulSpecImpl for CompositeRing {
    open spec fn obeys_mul_spec() -> bool {
        false
    }

    open spec fn mul_req(self, rhs: Self) -> bool {
        self.wf() && rhs.wf() && self.basis_view()@ == rhs.basis_view()@
    }

    open spec fn mul_spec(self, rhs: Self) -> Self {
        arbitrary()
    }
}

impl<'a> core::ops::Mul<&'a CompositeRing> for CompositeRing {
    type Output = Self;

    fn mul(self, rhs: &'a CompositeRing) -> (r: Self)
        ensures
            r.wf(),
            r.basis_view() == self.basis_view(),
            forall|i: int|
                0 <= i < self.basis_view()@.len() ==> #[trigger] r.residues_view()[i] as nat == (self.residues_view()[i] as nat * rhs.residues_view()[i] as nat) % (self.basis_view()@[i] as nat),
    {
        self.mul_residues(rhs)
    }
}

impl<'a> vstd::std_specs::ops::MulSpecImpl<&'a CompositeRing> for CompositeRing {
    open spec fn obeys_mul_spec() -> bool {
        false
    }

    open spec fn mul_req(self, rhs: &'a CompositeRing) -> bool {
        self.wf() && rhs.wf() && self.basis_view()@ == rhs.basis_view()@
    }

    open spec fn mul_spec(self, rhs: &'a CompositeRing) -> Self {
        arbitrary()
    }
}

impl core::ops::Neg for CompositeRing {
    type Output = Self;

    fn neg(self) -> (r: Self)
        ensures
            r.wf(),
            r.basis_view() == self.basis_view(),
            forall|k: int|
                0 <= k < self.residues_view().len() ==> #[trigger] r.residues_view()[k] == (if self.residues_view()[k]
                    == 0 {
                    0
                } else {
                    self.basis_view()@[k] - self.residues_view()[k]
                }),
    {
        let mut s = self;
        let n = s.residues.len();
        let ghost old_res = s.residues@;
        let mut i: usize = 0;
        while i < n
            invariant
                s.wf(),
                s.basis_view() == self.basis_view(),
                old_res == self.residues_view(),
                n == s.residues@.len(),
                n == old_res.len(),
                i <= n,
                forall|k: int|
                    0 <= k < i ==> #[trigger] s.residues@[k] == (if old_res[k] == 0 {
                        0
                    } else {
                        s.basis_view()@[k] - old_res[k]
                    }),
                forall|k: int| i <= k < n ==> #[trigger] s.residues@[k] == old_res[k],
            decreases n - i,
        {
            let r = s.residues[i];
            if r != 0 {
                let p = s.basis.moduli()[i];
                s.residues.set(i, p - r);
            }
            i = i + 1;
        }
        proof {
            assert(s.residues_view() == s.residues@);
        }
        s
    }
}

impl vstd::std_specs::ops::NegSpecImpl for CompositeRing {
    open spec fn obeys_neg_spec() -> bool {
        false
    }

    open spec fn neg_req(self) -> bool {
        self.wf()
    }

    open spec fn neg_spec(self) -> Self {
        arbitrary()
    }
}

impl PartialEq for CompositeRing {
    fn eq(&self, other: &Self) -> (r: bool) {
        Self::residues_eq(self.basis.moduli(), other.basis.moduli()) && Self::residues_eq(
            &self.residues,
            &other.residues,
        )
    }
}

impl vstd::std_specs::cmp::PartialEqSpecImpl for CompositeRing {
    open spec fn obeys_eq_spec() -> bool {
        true
    }

    open spec fn eq_spec(&self, other: &Self) -> bool {
        self.basis_view()@ == other.basis_view()@ && self.residues_view() == other.residues_view()
    }
}

impl Eq for CompositeRing {

}


/// The eight-byte little-endian encodings of `s`, one after the other.
pub open spec fn words_le(s: Seq<u64>) -> Seq<u8>
    decreases s.len(),
{
    if s.len() == 0 {
        Seq::empty()
    } else {
        le_encode(s[0] as nat, 8) + words_le(s.skip(1))
    }
}

/// The little-endian word `i` after the eight-byte header.
pub open spec fn word_at(data: Seq<u8>, i: int) -> nat {
    le_value(data.subrange(8 + 8 * i, 16 + 8 * i))
}

/// `data` starts with the encoding of `v` over `basis`: the limb count `k` of the basis,
/// then `k` words, each below its modulus, which are the residues of `v`; `n = 8 + 8k`.
pub open spec fn composite_decodes(data: Seq<u8>, basis: RnsBasis, v: CompositeRing, n: nat) -> bool {
    let k = basis@.len();
    &&& n == 8 + 8 * k
    &&& n <= data.len()
    &&& n <= usize::MAX
    &&& le_value(data.subrange(0, 8)) == k
    &&& v.wf()
    &&& v.basis_view() == basis
    &&& v.residues_view().len() == k
    &&& forall|i: int| 0 <= i < k ==> #[trigger] v.residues_view()[i] == word_at(data, i)
}

/// `data` ends before a complete encoding over a basis of `k` limbs.
pub open spec fn composite_short(data: Seq<u8>, k: nat) -> bool {
    ||| data.len() < 8
    ||| (le_value(data.subrange(0, 8)) == k && 8 + 8 * k <= usize::MAX && data.len() < 8 + 8 * k)
}

/// `2^64` as a byte power.
proof fn lemma_word_pow()
    ensures
        byte_pow(8) == 0x1_0000_0000_0000_0000,
{
    reveal_with_fuel(byte_pow, 9);
}

/// Word `i` of `words_le(s)` (after a header `h` of eight bytes) is `s[i]`.
proof fn lemma_words_le_at(h: Seq<u8>, s: Seq<u64>, rest: Seq<u8>, i: int)
    requires
        h.len() == 8,
        0 <= i < s.len(),
    ensures
        word_at(h + words_le(s) + rest, i) == s[i],
        words_le(s).len() == 8 * s.len(),
    decreases s.len(),
{
    lemma_words_le_len(s);
    lemma_word_pow();
    if i == 0 {
        lemma_le_encode(s[0] as nat, 8);
        vstd::arithmetic::div_mod::lemma_small_mod(s[0] as nat, byte_pow(8));
        assert((h + words_le(s) + rest).subrange(8, 16) =~= le_encode(s[0] as nat, 8));
    } else {
        lemma_words_le_at(h, s.skip(1), rest, i - 1);
        let first = le_encode(s[0] as nat, 8);
        lemma_le_encode(s[0] as nat, 8);
        assert((h + words_le(s) + rest).subrange(8 + 8 * i, 16 + 8 * i) =~= (h + words_le(s.skip(1)) + rest).subrange(
            8 + 8 * (i - 1),
            16 + 8 * (i - 1),
        ));
    }
}

/// `words_le(s)` has eight bytes per word.
proof fn lemma_words_le_len(s: Seq<u64>)
    ensures
        words_le(s).len() == 8 * s.len(),
    decreases s.len(),
{
    if s.len() > 0 {
        lemma_words_le_len(s.skip(1));
        lemma_le_encode(s[0] as nat, 8);
    }
}

/// Appending one word's encoding extends the encoding of a prefix.
proof fn lemma_words_le_take(s: Seq<u64>, i: nat)
    requires
        i < s.len(),
    ensures
        words_le(s.take((i + 1) as int)) == words_le(s.take(i as int)) + le_encode(s[i as int] as nat, 8),
    decreases i,
{
    if i == 0 {
        assert(s.take(1).skip(1) =~= Seq::<u64>::empty());
        assert(s.take(0) =~= Seq::<u64>::empty());
        assert(s.take(1)[0] == s[0]);
        assert(words_le(Seq::<u64>::empty()) == Seq::<u8>::empty());
        assert(words_le(s.take(1)) =~= le_encode(s[0] as nat, 8));
        assert(words_le(s.take(0)) + le_encode(s[0] as nat, 8) =~= le_encode(s[0] as nat, 8));
    } else {
        let t = s.skip(1);
        lemma_words_le_take(t, (i - 1) as nat);
        assert(s.take((i + 1) as int).skip(1) =~= t.take(i as int));
        assert(s.take(i as int).skip(1) =~= t.take((i - 1) as int));
        assert(s.take((i + 1) as int)[0] == s[0]);
        assert(s.take(i as int)[0] == s[0]);
        assert(t[(i - 1) as int] == s[i as int]);
        assert(((i - 1) as nat + 1) as int == i as int);
        assert(words_le(s.take((i + 1) as int)) =~= words_le(s.take(i as int)) + le_encode(s[i as int] as nat, 8));
    }
}

impl CanonicalSerialize for CompositeRing {
    /// The limb count in eight little-endian bytes, then each residue in eight.
    open spec fn encoding(&self) -> Seq<u8> {
        le_encode(self.residues_view().len(), 8) + words_le(self.residues_view())
    }

    open spec fn can_encode(&self) -> bool {
        8 + 8 * self.residues_view().len() <= usize::MAX
    }

    fn serialized_size(&self) -> (r: usize) {
        proof {
            lemma_le_encode(self.residues_view().len(), 8);
            lemma_words_le_len(self.residues_view());
        }
        8 + self.residues.len() * 8
    }

    fn serialize_into(&self, buf: &mut Vec<u8>) -> (r: Result<(), SerializationError>) {
        let header = u64_to_le_bytes(self.residues.len() as u64, 8);
        let ghost start = buf@;
        append_bytes(buf, header.as_slice());
        let mut i: usize = 0;
        proof {
            assert(self.residues@.take(0) =~= Seq::<u64>::empty());
            assert(buf@ =~= start + header@ + words_le(self.residues@.take(0)));
        }
        while i < self.residues.len()
            invariant
                i <= self.residues@.len(),
                buf@ == start + header@ + words_le(self.residues@.take(i as int)),
            decreases self.residues@.len() - i,
        {
            proof {
                lemma_words_le_take(self.residues@, i as nat);
            }
            let word = u64_to_le_bytes(self.residues[i], 8);
            append_bytes(buf, word.as_slice());
            proof {
                assert(buf@ =~= start + header@ + words_le(self.residues@.take((i + 1) as int)));
            }
            i = i + 1;
        }
        proof {
            assert(self.residues@.take(self.residues@.len() as int) =~= self.residues@);
            assert(buf@ =~= start + self.encoding());
        }
        Ok(())
    }
}

impl CompositeRing {
    /// Decoding the encoding of a valid element over its own basis, followed by any
    /// bytes, gives back its residues.
    pub proof fn lemma_serialize_round_trip(&self, rest: Seq<u8>)
        requires
            self.wf(),
            self.can_encode(),
        ensures
            composite_decodes(self.encoding() + rest, self.basis_view(), *self, self.encoding().len()),
    {
        let k = self.residues_view().len();
        let h = le_encode(k, 8);
        lemma_le_encode(k, 8);
        lemma_word_pow();
        vstd::arithmetic::div_mod::lemma_small_mod(k, byte_pow(8));
        lemma_words_le_len(self.residues_view());
        let d = self.encoding() + rest;
        assert(d.subrange(0, 8) =~= h);
        assert(d =~= h + words_le(self.residues_view()) + rest);
        assert forall|i: int| 0 <= i < k implies #[trigger] self.residues_view()[i] == word_at(d, i) by {
            lemma_words_le_at(h, self.residues_view(), rest, i);
        }
    }

    /// Deserialize from bytes with a known basis.
    pub fn deserialize_with_basis(data: &[u8], basis: Arc<RnsBasis>) -> (r: Result<(Self, usize), SerializationError>)
        requires
            basis.wf(),
        ensures
            r matches Ok((v, n)) ==> composite_decodes(data@, *basis, v, n as nat),
            r is Err ==> forall|v: Self, n: nat| !composite_decodes(data@, *basis, v, n),
            r matches Err(e) ==> (e is UnexpectedEnd <==> composite_short(data@, basis@.len())),
    {
        if data.len() < 8 {
            return Err(SerializationError::UnexpectedEnd);
        }
        let num = le_bytes_to_u64(data, 0, 8);
        if num > usize::MAX as u64 {
            return Err(SerializationError::InvalidData("limb count too large".to_owned()));
        }
        let num_limbs = num as usize;
        let k = basis.num_limbs();
        if num_limbs != k {
            return Err(SerializationError::InvalidData("limb count does not match the basis".to_owned()));
        }
        let bytes = match num_limbs.checked_mul(8) {
            Some(b) => b,
            None => return Err(SerializationError::InvalidData("limb count too large".to_owned())),
        };
        let total = match bytes.checked_add(8) {
            Some(t) => t,
            None => return Err(SerializationError::InvalidData("limb count too large".to_owned())),
        };
        if data.len() < total {
            return Err(SerializationError::UnexpectedEnd);
        }
        let moduli = basis.moduli();
        let mut residues: Vec<u64> = Vec::new();
        let mut i: usize = 0;
        while i < num_limbs
            invariant
                num_limbs == k,
                k == basis@.len(),
                moduli@ == basis@,
                total == 8 + 8 * k,
                total <= data@.len(),
                i <= k,
                residues@.len() == i,
                forall|j: int| 0 <= j < i ==> #[trigger] residues@[j] == word_at(data@, j) && residues@[j] < basis@[j],
            decreases k - i,
        {
            let start = 8 + i * 8;
            let r = le_bytes_to_u64(data, start, 8);
            proof {
                assert(data@.subrange(start as int, start + 8) =~= data@.subrange(8 + 8 * i, 16 + 8 * i));
            }
            if r >= moduli[i] {
                proof {
                    assert forall|v: Self, n: nat| !composite_decodes(data@, *basis, v, n) by {
                        if composite_decodes(data@, *basis, v, n) {
                            assert(v.residues_view()[i as int] == word_at(data@, i as int));
                            assert(valid_residues(basis@, v.residues_view()));
                        }
                    }
                }
                return Err(SerializationError::InvalidData("residue is not below its modulus".to_owned()));
            }
            residues.push(r);
            i = i + 1;
        }
        proof {
            assert(valid_residues(basis@, residues@));
        }
        match Self::from_residues_with_basis(residues, basis) {
            Ok(v) => Ok((v, total)),
            Err(e) => Err(e),
        }
    }

    /// Deserialize from bytes with a known basis and require exact input consumption.
    pub fn deserialize_exact_with_basis(data: &[u8], basis: Arc<RnsBasis>) -> (r: Result<Self, SerializationError>)
        requires
            basis.wf(),
        ensures
            r matches Ok(v) ==> composite_decodes(data@, *basis, v, data@.len()),
            r is Err ==> forall|v: Self| !composite_decodes(data@, *basis, v, data@.len()),
    {
        match Self::deserialize_with_basis(data, basis) {
            Ok((value, consumed)) => {
                if consumed == data.len() {
                    Ok(value)
                } else {
                    Err(SerializationError::InvalidData("trailing bytes after deserialized value".to_owned()))
                }
            },
            Err(e) => Err(e),
        }
    }
}

} // verus!
