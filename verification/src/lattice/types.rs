//! Vectors and matrices over rings.
use crate::lattice::params::{
    LargeNormStats, LargeNormValue, LargeNormedRing, NormStats, NormedRing, l2_sum, large_l2_sum,
    large_linf_max, linf_max, sat_at, sat_u128,
};
use crate::arith::ring::{
    Ring, dot_spec, ring_add_assign_scaled_slice, ring_add_assign_slice, ring_dot_product,
    ring_scalar_mul_slice, ring_sub_assign_slice, seq_wf,
};
use crate::serialize::{
    CanonicalDeserialize, CanonicalSerialize, SerializationError, all_can_encode, append_bytes,
    byte_pow, concat_encodings, decodes_seq, deserialize_entries, le_bytes_to_u64, le_encode,
    le_value, lemma_byte_pow_mono, lemma_concat_take, lemma_concat_take_le, lemma_le_encode,
    lemma_le_encode_value, lemma_seq_not_short, lemma_seq_offset_unique, lemma_seq_prefix,
    lemma_seq_round_trip, serialize_entries, short_seq, u64_to_le_bytes,
};
use vstd::prelude::*;

verus! {

/// A vector of ring elements.
#[derive(Clone, Debug, PartialEq, Eq)]
pub struct RingVec<R: Ring> {
    entries: Vec<R>,
}

impl<R: Ring> View for RingVec<R> {
    type V = Seq<R>;

    /// The entries of the vector.
    closed spec fn view(&self) -> Seq<R> {
        self.entries@
    }
}

impl<R: Ring> RingVec<R> {
    /// Create a vector from entries.
    pub fn new(entries: Vec<R>) -> (r: Self)
        ensures
            r@ == entries@,
    {
        RingVec { entries }
    }

    /// Return the vector length.
    pub fn len(&self) -> (r: usize)
        ensures
            r == self@.len(),
    {
        self.entries.len()
    }

    /// Borrow entry `i`.
    pub fn get(&self, i: usize) -> (r: &R)
        requires
            i < self@.len(),
        ensures
            *r == self@[i as int],
    {
        &self.entries[i]
    }

    /// Return whether the vector is empty.
    pub fn is_empty(&self) -> (r: bool)
        ensures
            r == (self@.len() == 0),
    {
        self.entries.len() == 0
    }

    /// Borrow the entries.
    pub fn entries(&self) -> (r: &[R])
        ensures
            r@ == self@,
    {
        self.entries.as_slice()
    }

    /// Mutably borrow the entries.
    pub fn entries_mut(&mut self) -> (r: &mut [R])
        ensures
            r@ == old(self)@,
            final(r)@ == final(self)@,
    {
        self.entries.as_mut_slice()
    }

    /// Return the all-zero vector of length `n`.
    pub fn zero(n: usize) -> (r: Self)
        requires
            R::params_ok(),
        ensures
            r@.len() == n,
            forall|i: int| 0 <= i < n ==> #[trigger] r@[i] == R::zero_spec(),
            seq_wf(r@),
    {
        let mut entries: Vec<R> = Vec::new();
        let mut i: usize = 0;
        while i < n
            invariant
                R::params_ok(),
                i <= n,
                entries@.len() == i,
                forall|k: int| 0 <= k < i ==> #[trigger] entries@[k] == R::zero_spec(),
                seq_wf(entries@),
            decreases n - i,
        {
            entries.push(R::zero());
            i = i + 1;
        }
        RingVec { entries }
    }

    /// Compute the inner product with another vector of the same length.
    pub fn dot(&self, other: &Self) -> (r: R)
        requires
            R::params_ok(),
            self@.len() == other@.len(),
            seq_wf(self@),
            seq_wf(other@),
        ensures
            r == dot_spec(self@, other@),
            r.wf(),
    {
        ring_dot_product(self.entries.as_slice(), other.entries.as_slice())
    }

    /// Multiply all entries by a scalar.
    pub fn scale(&self, s: &R) -> (r: Self)
        requires
            seq_wf(self@),
            s.wf(),
        ensures
            r@.len() == self@.len(),
            forall|i: int| 0 <= i < self@.len() ==> #[trigger] r@[i] == R::mul_spec(self@[i], *s),
            seq_wf(r@),
    {
        let mut entries = vstd::slice::slice_to_vec(self.entries.as_slice());
        ring_scalar_mul_slice(entries.as_mut_slice(), s);
        RingVec { entries }
    }

    /// In-place `self += s * other`.
    pub fn add_assign_scaled(&mut self, other: &Self, s: &R)
        requires
            old(self)@.len() == other@.len(),
            seq_wf(old(self)@),
            seq_wf(other@),
            s.wf(),
        ensures
            final(self)@.len() == old(self)@.len(),
            forall|i: int|
                0 <= i < other@.len() ==> #[trigger] final(self)@[i] == R::add_spec(
                    old(self)@[i],
                    R::mul_spec(other@[i], *s),
                ),
            seq_wf(final(self)@),
    {
        ring_add_assign_scaled_slice(self.entries.as_mut_slice(), other.entries.as_slice(), s);
    }

    /// Compute the exact squared `L2` norm (saturating at `u128::MAX`).
    pub fn l2_norm_sq(&self) -> (r: u128) where R: NormedRing
        requires
            seq_wf(self@),
        ensures
            r == sat_u128(l2_sum(self@) as int),
    {
        NormStats::compute(self).l2_sq
    }

    /// Compute the exact `L∞` norm.
    pub fn linf_norm(&self) -> (r: u64) where R: NormedRing
        requires
            seq_wf(self@),
        ensures
            r == linf_max(self@),
    {
        NormStats::compute(self).linf
    }

    /// Compute the exact squared `L2` norm in the large norm type (saturating at
    /// its ceiling).
    pub fn l2_norm_sq_large(&self) -> (r: <R as LargeNormedRing>::Norm) where R: LargeNormedRing
        requires
            seq_wf(self@),
        ensures
            r.norm_nat() == sat_at(
                large_l2_sum(self@) as int,
                <<R as LargeNormedRing>::Norm as LargeNormValue>::norm_ceiling(),
            ),
    {
        LargeNormStats::compute(self).l2_sq
    }

    /// Compute the exact `L∞` norm in the large norm type.
    pub fn linf_norm_large(&self) -> (r: <R as LargeNormedRing>::Norm) where R: LargeNormedRing
        requires
            seq_wf(self@),
        ensures
            r.norm_nat() == large_linf_max(self@),
    {
        LargeNormStats::compute(self).linf
    }

    /// `self + rhs` entrywise.
    pub fn add_vec(self, rhs: &Self) -> (r: Self)
        requires
            self@.len() == rhs@.len(),
            seq_wf(self@),
            seq_wf(rhs@),
        ensures
            r@.len() == self@.len(),
            forall|i: int| 0 <= i < self@.len() ==> #[trigger] r@[i] == R::add_spec(self@[i], rhs@[i]),
            seq_wf(r@),
    {
        let mut entries = self.entries;
        ring_add_assign_slice(entries.as_mut_slice(), rhs.entries.as_slice());
        RingVec { entries }
    }

    /// `self - rhs` entrywise.
    pub fn sub_vec(self, rhs: &Self) -> (r: Self)
        requires
            self@.len() == rhs@.len(),
            seq_wf(self@),
            seq_wf(rhs@),
        ensures
            r@.len() == self@.len(),
            forall|i: int| 0 <= i < self@.len() ==> #[trigger] r@[i] == R::sub_spec(self@[i], rhs@[i]),
            seq_wf(r@),
    {
        let mut entries = self.entries;
        ring_sub_assign_slice(entries.as_mut_slice(), rhs.entries.as_slice());
        RingVec { entries }
    }

    /// `-self` entrywise.
    pub fn neg_vec(self) -> (r: Self)
        requires
            seq_wf(self@),
        ensures
            r@.len() == self@.len(),
            forall|i: int| 0 <= i < self@.len() ==> #[trigger] r@[i] == R::neg_spec(self@[i]),
            seq_wf(r@),
    {
        let n = self.entries.len();
        let mut entries: Vec<R> = Vec::new();
        let mut i: usize = 0;
        while i < n
            invariant
                n == self@.len(),
                seq_wf(self@),
                i <= n,
                entries@.len() == i,
                forall|k: int| 0 <= k < i ==> #[trigger] entries@[k] == R::neg_spec(self@[k]),
                seq_wf(entries@),
            decreases n - i,
        {
            let v = R::neg_ref(&self.entries[i]);
            proof {
                R::lemma_closed(self@[i as int], self@[i as int]);
            }
            entries.push(v);
            i = i + 1;
        }
        RingVec { entries }
    }
}

impl<R: Ring> RingVec<R> {
    /// `self += rhs` entrywise.
    pub fn add_assign(&mut self, rhs: Self)
        requires
            old(self)@.len() == rhs@.len(),
            seq_wf(old(self)@),
            seq_wf(rhs@),
        ensures
            final(self)@.len() == old(self)@.len(),
            forall|i: int| 0 <= i < old(self)@.len() ==> #[trigger] final(self)@[i] == R::add_spec(old(self)@[i], rhs@[i]),
            seq_wf(final(self)@),
    {
        ring_add_assign_slice(self.entries.as_mut_slice(), rhs.entries.as_slice());
    }

    /// `self -= rhs` entrywise.
    pub fn sub_assign(&mut self, rhs: Self)
        requires
            old(self)@.len() == rhs@.len(),
            seq_wf(old(self)@),
            seq_wf(rhs@),
        ensures
            final(self)@.len() == old(self)@.len(),
            forall|i: int| 0 <= i < old(self)@.len() ==> #[trigger] final(self)@[i] == R::sub_spec(old(self)@[i], rhs@[i]),
            seq_wf(final(self)@),
    {
        ring_sub_assign_slice(self.entries.as_mut_slice(), rhs.entries.as_slice());
    }
}

impl<'a, R: Ring> core::ops::Add<&'a RingVec<R>> for RingVec<R> {
    type Output = Self;

    fn add(self, rhs: &'a RingVec<R>) -> (r: Self)
        ensures
            r@.len() == self@.len(),
            forall|i: int| 0 <= i < self@.len() ==> #[trigger] r@[i] == R::add_spec(self@[i], rhs@[i]),
            seq_wf(r@),
    {
        self.add_vec(rhs)
    }
}

impl<'a, R: Ring> vstd::std_specs::ops::AddSpecImpl<&'a RingVec<R>> for RingVec<R> {
    open spec fn obeys_add_spec() -> bool {
        false
    }

    open spec fn add_req(self, rhs: &'a RingVec<R>) -> bool {
        self@.len() == rhs@.len() && seq_wf(self@) && seq_wf(rhs@)
    }

    open spec fn add_spec(self, rhs: &'a RingVec<R>) -> Self {
        arbitrary()
    }
}

impl<'a, R: Ring> core::ops::Sub<&'a RingVec<R>> for RingVec<R> {
    type Output = Self;

    fn sub(self, rhs: &'a RingVec<R>) -> (r: Self)
        ensures
            r@.len() == self@.len(),
            forall|i: int| 0 <= i < self@.len() ==> #[trigger] r@[i] == R::sub_spec(self@[i], rhs@[i]),
            seq_wf(r@),
    {
        self.sub_vec(rhs)
    }
}

impl<'a, R: Ring> vstd::std_specs::ops::SubSpecImpl<&'a RingVec<R>> for RingVec<R> {
    open spec fn obeys_sub_spec() -> bool {
        false
    }

    open spec fn sub_req(self, rhs: &'a RingVec<R>) -> bool {
        self@.len() == rhs@.len() && seq_wf(self@) && seq_wf(rhs@)
    }

    open spec fn sub_spec(self, rhs: &'a RingVec<R>) -> Self {
        arbitrary()
    }
}

impl<R: Ring> core::ops::Add for RingVec<R> {
    type Output = Self;

    fn add(self, rhs: Self) -> (r: Self)
        ensures
            r@.len() == self@.len(),
            forall|i: int| 0 <= i < self@.len() ==> #[trigger] r@[i] == R::add_spec(self@[i], rhs@[i]),
            seq_wf(r@),
    {
        self.add_vec(&rhs)
    }
}

impl<R: Ring> vstd::std_specs::ops::AddSpecImpl for RingVec<R> {
    open spec fn obeys_add_spec() -> bool {
        false
    }

    open spec fn add_req(self, rhs: Self) -> bool {
        self@.len() == rhs@.len() && seq_wf(self@) && seq_wf(rhs@)
    }

    open spec fn add_spec(self, rhs: Self) -> Self {
        arbitrary()
    }
}

impl<R: Ring> core::ops::Sub for RingVec<R> {
    type Output = Self;

    fn sub(self, rhs: Self) -> (r: Self)
        ensures
            r@.len() == self@.len(),
            forall|i: int| 0 <= i < self@.len() ==> #[trigger] r@[i] == R::sub_spec(self@[i], rhs@[i]),
            seq_wf(r@),
    {
        self.sub_vec(&rhs)
    }
}

impl<R: Ring> vstd::std_specs::ops::SubSpecImpl for RingVec<R> {
    open spec fn obeys_sub_spec() -> bool {
        false
    }

    open spec fn sub_req(self, rhs: Self) -> bool {
        self@.len() == rhs@.len() && seq_wf(self@) && seq_wf(rhs@)
    }

    open spec fn sub_spec(self, rhs: Self) -> Self {
        arbitrary()
    }
}

impl<R: Ring> core::ops::Neg for RingVec<R> {
    type Output = Self;

    fn neg(self) -> (r: Self)
        ensures
            r@.len() == self@.len(),
            forall|i: int| 0 <= i < self@.len() ==> #[trigger] r@[i] == R::neg_spec(self@[i]),
            seq_wf(r@),
    {
        self.neg_vec()
    }
}

impl<R: Ring> vstd::std_specs::ops::NegSpecImpl for RingVec<R> {
    open spec fn obeys_neg_spec() -> bool {
        false
    }

    open spec fn neg_req(self) -> bool {
        seq_wf(self@)
    }

    open spec fn neg_spec(self) -> Self {
        arbitrary()
    }
}

/// Row `i` of a row-major matrix with `cols` columns.
pub open spec fn mat_row<R>(entries: Seq<R>, cols: nat, i: int) -> Seq<R> {
    entries.subrange(i * cols, i * cols + cols)
}

/// A row-major matrix of ring elements.
#[derive(Clone, Debug, PartialEq, Eq)]
pub struct RingMat<R: Ring> {
    rows: usize,
    cols: usize,
    entries: Vec<R>,
}

impl<R: Ring> RingMat<R> {
    /// The number of rows.
    pub closed spec fn rows_spec(&self) -> nat {
        self.rows as nat
    }

    /// The number of columns.
    pub closed spec fn cols_spec(&self) -> nat {
        self.cols as nat
    }

    /// The row-major entries.
    pub closed spec fn entries_spec(&self) -> Seq<R> {
        self.entries@
    }

    /// The shape matches the entries.
    pub open spec fn shape_ok(&self) -> bool {
        self.rows_spec() * self.cols_spec() == self.entries_spec().len()
    }

    /// A well-shaped matrix has `rows * cols` entries, and row `i` starts at `i * cols`.
    pub proof fn lemma_shape(&self, i: int, j: int)
        requires
            self.shape_ok(),
            0 <= i < self.rows_spec(),
            0 <= j < self.cols_spec(),
        ensures
            0 <= i * self.cols_spec() + j < self.entries_spec().len(),
            i * self.cols_spec() + self.cols_spec() <= self.entries_spec().len(),
    {
        let c = self.cols_spec() as int;
        let r = self.rows_spec() as int;
        assert(i * c + c <= r * c) by (nonlinear_arith)
            requires
                0 <= i < r,
                c >= 0,
        ;
        assert(0 <= i * c) by (nonlinear_arith)
            requires
                0 <= i,
                c >= 0,
        ;
    }

    /// Create a matrix from row-major entries; their count must be `rows * cols`.
    pub fn new(rows: usize, cols: usize, entries: Vec<R>) -> (r: Self)
        requires
            rows * cols == entries@.len(),
        ensures
            r.shape_ok(),
            r.rows_spec() == rows,
            r.cols_spec() == cols,
            r.entries_spec() == entries@,
    {
        RingMat { rows, cols, entries }
    }

    /// Return the row count.
    pub fn rows(&self) -> (r: usize)
        ensures
            r == self.rows_spec(),
    {
        self.rows
    }

    /// Return the column count.
    pub fn cols(&self) -> (r: usize)
        ensures
            r == self.cols_spec(),
    {
        self.cols
    }

    /// Borrow the row-major entries.
    pub fn entries(&self) -> (r: &[R])
        ensures
            r@ == self.entries_spec(),
    {
        self.entries.as_slice()
    }

    /// Return the all-zero matrix; `rows * cols` must fit in `usize`.
    pub fn zero(rows: usize, cols: usize) -> (r: Self)
        requires
            R::params_ok(),
            rows * cols <= usize::MAX,
        ensures
            r.shape_ok(),
            r.rows_spec() == rows,
            r.cols_spec() == cols,
            forall|k: int| 0 <= k < rows * cols ==> #[trigger] r.entries_spec()[k] == R::zero_spec(),
            seq_wf(r.entries_spec()),
    {
        let len = rows * cols;
        let v = RingVec::<R>::zero(len);
        RingMat { rows, cols, entries: v.entries }
    }

    /// The row-major index of entry `(i, j)`.
    fn index(&self, i: usize, j: usize) -> (r: usize)
        requires
            self.shape_ok(),
            i < self.rows_spec(),
            j < self.cols_spec(),
        ensures
            r == i * self.cols_spec() + j,
            r < self.entries_spec().len(),
    {
        let _n = self.entries.len();
        proof {
            self.lemma_shape(i as int, j as int);
        }
        i * self.cols + j
    }

    /// Borrow entry `(i, j)`.
    pub fn get(&self, i: usize, j: usize) -> (r: &R)
        requires
            self.shape_ok(),
            i < self.rows_spec(),
            j < self.cols_spec(),
        ensures
            *r == self.entries_spec()[i * self.cols_spec() + j],
    {
        let idx = self.index(i, j);
        &self.entries[idx]
    }

    /// Mutably borrow entry `(i, j)`.
    pub fn get_mut(&mut self, i: usize, j: usize) -> (r: &mut R)
        requires
            old(self).shape_ok(),
            i < old(self).rows_spec(),
            j < old(self).cols_spec(),
        ensures
            *r == old(self).entries_spec()[i * old(self).cols_spec() + j],
            final(self).rows_spec() == old(self).rows_spec(),
            final(self).cols_spec() == old(self).cols_spec(),
            final(self).entries_spec() == old(self).entries_spec().update(
                i * old(self).cols_spec() + j,
                *final(r),
            ),
    {
        let idx = self.index(i, j);
        &mut self.entries[idx]
    }

    /// Return row `i`.
    pub fn row(&self, i: usize) -> (r: RingVec<R>)
        requires
            self.shape_ok(),
            i < self.rows_spec(),
        ensures
            r@ == mat_row(self.entries_spec(), self.cols_spec(), i as int),
    {
        let _n = self.entries.len();
        proof {
            if self.cols > 0 {
                self.lemma_shape(i as int, 0);
            } else {
                assert(i * self.cols_spec() == 0) by (nonlinear_arith)
                    requires
                        self.cols_spec() == 0,
                ;
            }
        }
        let start = i * self.cols;
        let slice = vstd::slice::slice_subrange(self.entries.as_slice(), start, start + self.cols);
        RingVec::new(vstd::slice::slice_to_vec(slice))
    }

    /// Return column `j`.
    pub fn col(&self, j: usize) -> (r: RingVec<R>)
        requires
            self.shape_ok(),
            j < self.cols_spec(),
        ensures
            r@.len() == self.rows_spec(),
            forall|i: int|
                0 <= i < self.rows_spec() ==> #[trigger] r@[i] == self.entries_spec()[i
                    * self.cols_spec() + j],
    {
        let mut out: Vec<R> = Vec::new();
        let mut i: usize = 0;
        while i < self.rows
            invariant
                self.shape_ok(),
                j < self.cols_spec(),
                i <= self.rows_spec(),
                out@.len() == i,
                forall|k: int|
                    0 <= k < i ==> #[trigger] out@[k] == self.entries_spec()[k * self.cols_spec() + j],
            decreases self.rows_spec() - i,
        {
            out.push(*self.get(i, j));
            i = i + 1;
        }
        RingVec::new(out)
    }

    /// Return the transpose.
    pub fn transpose(&self) -> (r: Self)
        requires
            self.shape_ok(),
        ensures
            r.shape_ok(),
            r.rows_spec() == self.cols_spec(),
            r.cols_spec() == self.rows_spec(),
            forall|i: int, j: int|
                0 <= i < self.cols_spec() && 0 <= j < self.rows_spec() ==> #[trigger] r.entries_spec()[i
                    * self.rows_spec() + j] == self.entries_spec()[j * self.cols_spec() + i],
    {
        let rows = self.rows;
        let cols = self.cols;
        let mut out: Vec<R> = Vec::new();
        let mut j: usize = 0;
        while j < cols
            invariant
                self.shape_ok(),
                rows == self.rows_spec(),
                cols == self.cols_spec(),
                j <= cols,
                out@.len() == j * rows,
                forall|a: int, b: int|
                    0 <= a < j && 0 <= b < rows ==> #[trigger] out@[a * rows + b] == self.entries_spec()[b
                        * cols + a],
            decreases cols - j,
        {
            let mut i: usize = 0;
            while i < rows
                invariant
                    self.shape_ok(),
                    rows == self.rows_spec(),
                    cols == self.cols_spec(),
                    j < cols,
                    i <= rows,
                    out@.len() == j * rows + i,
                    forall|a: int, b: int|
                        0 <= a < j && 0 <= b < rows ==> #[trigger] out@[a * rows + b]
                            == self.entries_spec()[b * cols + a],
                    forall|b: int|
                        0 <= b < i ==> #[trigger] out@[j * rows + b] == self.entries_spec()[b * cols + j],
                decreases rows - i,
            {
                out.push(*self.get(i, j));
                proof {
                    assert forall|a: int, b: int|
                        0 <= a < j && 0 <= b < rows implies #[trigger] out@[a * rows + b]
                            == self.entries_spec()[b * cols + a] by {
                        assert(a * rows + b < j * rows) by (nonlinear_arith)
                            requires
                                0 <= a < j,
                                0 <= b < rows,
                        ;
                    }
                }
                i = i + 1;
            }
            proof {
                assert(j * rows + rows == (j + 1) * rows) by (nonlinear_arith);
                assert forall|a: int, b: int|
                    0 <= a < j + 1 && 0 <= b < rows implies #[trigger] out@[a * rows + b]
                        == self.entries_spec()[b * cols + a] by {
                    if a == j {
                        assert(out@[j * rows + b] == self.entries_spec()[b * cols + j]);
                    }
                }
            }
            j = j + 1;
        }
        proof {
            assert(cols * rows == rows * cols) by (nonlinear_arith);
        }
        RingMat { rows: cols, cols: rows, entries: out }
    }

    /// Multiply the matrix by a slice: entry `i` is the dot product of row `i` with `v`.
    pub fn mul_slice(&self, v: &[R]) -> (r: RingVec<R>)
        requires
            R::params_ok(),
            self.shape_ok(),
            self.cols_spec() == v@.len(),
            seq_wf(self.entries_spec()),
            seq_wf(v@),
        ensures
            r@.len() == self.rows_spec(),
            forall|i: int|
                0 <= i < self.rows_spec() ==> #[trigger] r@[i] == dot_spec(
                    mat_row(self.entries_spec(), self.cols_spec(), i),
                    v@,
                ),
            seq_wf(r@),
    {
        let mut out: Vec<R> = Vec::new();
        let mut i: usize = 0;
        while i < self.rows
            invariant
                R::params_ok(),
                self.shape_ok(),
                self.cols_spec() == v@.len(),
                seq_wf(self.entries_spec()),
                seq_wf(v@),
                i <= self.rows_spec(),
                out@.len() == i,
                seq_wf(out@),
                forall|k: int|
                    0 <= k < i ==> #[trigger] out@[k] == dot_spec(
                        mat_row(self.entries_spec(), self.cols_spec(), k),
                        v@,
                    ),
            decreases self.rows_spec() - i,
        {
            let _n = self.entries.len();
            proof {
                if self.cols > 0 {
                    self.lemma_shape(i as int, 0);
                } else {
                    assert(i * self.cols_spec() == 0) by (nonlinear_arith)
                        requires
                            self.cols_spec() == 0,
                    ;
                }
            }
            let start = i * self.cols;
            let end = start + self.cols;
            let row = vstd::slice::slice_subrange(self.entries.as_slice(), start, end);
            proof {
                assert forall|k: int| 0 <= k < row@.len() implies (#[trigger] row@[k]).wf() by {
                    assert(row@[k] == self.entries_spec()[start + k]);
                }
            }
            out.push(ring_dot_product(row, v));
            i = i + 1;
        }
        RingVec::new(out)
    }

    /// Multiply the matrix by a vector.
    pub fn mul_vec(&self, v: &RingVec<R>) -> (r: RingVec<R>)
        requires
            R::params_ok(),
            self.shape_ok(),
            self.cols_spec() == v@.len(),
            seq_wf(self.entries_spec()),
            seq_wf(v@),
        ensures
            r@.len() == self.rows_spec(),
            forall|i: int|
                0 <= i < self.rows_spec() ==> #[trigger] r@[i] == dot_spec(
                    mat_row(self.entries_spec(), self.cols_spec(), i),
                    v@,
                ),
            seq_wf(r@),
    {
        self.mul_slice(v.entries())
    }
}

impl<R: Ring> RingMat<R> {
    /// `self + rhs` entrywise.
    pub fn add_mat(self, rhs: &Self) -> (r: Self)
        requires
            self.shape_ok(),
            rhs.shape_ok(),
            self.rows_spec() == rhs.rows_spec(),
            self.cols_spec() == rhs.cols_spec(),
            seq_wf(self.entries_spec()),
            seq_wf(rhs.entries_spec()),
        ensures
            r.shape_ok(),
            r.rows_spec() == self.rows_spec(),
            r.cols_spec() == self.cols_spec(),
            forall|k: int|
                0 <= k < self.entries_spec().len() ==> #[trigger] r.entries_spec()[k] == R::add_spec(
                    self.entries_spec()[k],
                    rhs.entries_spec()[k],
                ),
            seq_wf(r.entries_spec()),
    {
        let mut entries = self.entries;
        ring_add_assign_slice(entries.as_mut_slice(), rhs.entries.as_slice());
        RingMat { rows: self.rows, cols: self.cols, entries }
    }

    /// `self - rhs` entrywise.
    pub fn sub_mat(self, rhs: &Self) -> (r: Self)
        requires
            self.shape_ok(),
            rhs.shape_ok(),
            self.rows_spec() == rhs.rows_spec(),
            self.cols_spec() == rhs.cols_spec(),
            seq_wf(self.entries_spec()),
            seq_wf(rhs.entries_spec()),
        ensures
            r.shape_ok(),
            r.rows_spec() == self.rows_spec(),
            r.cols_spec() == self.cols_spec(),
            forall|k: int|
                0 <= k < self.entries_spec().len() ==> #[trigger] r.entries_spec()[k] == R::sub_spec(
                    self.entries_spec()[k],
                    rhs.entries_spec()[k],
                ),
            seq_wf(r.entries_spec()),
    {
        let mut entries = self.entries;
        ring_sub_assign_slice(entries.as_mut_slice(), rhs.entries.as_slice());
        RingMat { rows: self.rows, cols: self.cols, entries }
    }
}

impl<R: Ring> RingMat<R> {
    /// `-self` entrywise.
    pub fn neg_mat(self) -> (r: Self)
        requires
            self.shape_ok(),
            seq_wf(self.entries_spec()),
        ensures
            r.shape_ok(),
            r.rows_spec() == self.rows_spec(),
            r.cols_spec() == self.cols_spec(),
            forall|k: int|
                0 <= k < self.entries_spec().len() ==> #[trigger] r.entries_spec()[k] == R::neg_spec(
                    self.entries_spec()[k],
                ),
            seq_wf(r.entries_spec()),
    {
        let n = self.entries.len();
        let mut entries: Vec<R> = Vec::new();
        let mut i: usize = 0;
        while i < n
            invariant
                n == self.entries_spec().len(),
                seq_wf(self.entries_spec()),
                i <= n,
                entries@.len() == i,
                forall|k: int| 0 <= k < i ==> #[trigger] entries@[k] == R::neg_spec(self.entries_spec()[k]),
                seq_wf(entries@),
            decreases n - i,
        {
            let v = R::neg_ref(&self.entries[i]);
            proof {
                R::lemma_closed(self.entries_spec()[i as int], self.entries_spec()[i as int]);
            }
            entries.push(v);
            i = i + 1;
        }
        RingMat { rows: self.rows, cols: self.cols, entries }
    }

    /// `self += rhs` entrywise.
    pub fn add_assign(&mut self, rhs: Self)
        requires
            old(self).shape_ok(),
            rhs.shape_ok(),
            old(self).rows_spec() == rhs.rows_spec(),
            old(self).cols_spec() == rhs.cols_spec(),
            seq_wf(old(self).entries_spec()),
            seq_wf(rhs.entries_spec()),
        ensures
            final(self).shape_ok(),
            final(self).rows_spec() == old(self).rows_spec(),
            final(self).cols_spec() == old(self).cols_spec(),
            forall|k: int|
                0 <= k < old(self).entries_spec().len() ==> #[trigger] final(self).entries_spec()[k]
                    == R::add_spec(old(self).entries_spec()[k], rhs.entries_spec()[k]),
            seq_wf(final(self).entries_spec()),
    {
        ring_add_assign_slice(self.entries.as_mut_slice(), rhs.entries.as_slice());
    }

    /// `self -= rhs` entrywise.
    pub fn sub_assign(&mut self, rhs: Self)
        requires
            old(self).shape_ok(),
            rhs.shape_ok(),
            old(self).rows_spec() == rhs.rows_spec(),
            old(self).cols_spec() == rhs.cols_spec(),
            seq_wf(old(self).entries_spec()),
            seq_wf(rhs.entries_spec()),
        ensures
            final(self).shape_ok(),
            final(self).rows_spec() == old(self).rows_spec(),
            final(self).cols_spec() == old(self).cols_spec(),
            forall|k: int|
                0 <= k < old(self).entries_spec().len() ==> #[trigger] final(self).entries_spec()[k]
                    == R::sub_spec(old(self).entries_spec()[k], rhs.entries_spec()[k]),
            seq_wf(final(self).entries_spec()),
    {
        ring_sub_assign_slice(self.entries.as_mut_slice(), rhs.entries.as_slice());
    }
}

impl<R: Ring> core::ops::Neg for RingMat<R> {
    type Output = Self;

    fn neg(self) -> (r: Self)
        ensures
            r.shape_ok(),
            r.rows_spec() == self.rows_spec(),
            r.cols_spec() == self.cols_spec(),
            forall|k: int|
                0 <= k < self.entries_spec().len() ==> #[trigger] r.entries_spec()[k] == R::neg_spec(
                    self.entries_spec()[k],
                ),
    {
        self.neg_mat()
    }
}

impl<R: Ring> vstd::std_specs::ops::NegSpecImpl for RingMat<R> {
    open spec fn obeys_neg_spec() -> bool {
        false
    }

    open spec fn neg_req(self) -> bool {
        self.shape_ok() && seq_wf(self.entries_spec())
    }

    open spec fn neg_spec(self) -> Self {
        arbitrary()
    }
}

impl<'a, R: Ring> core::ops::Mul<&'a RingVec<R>> for RingMat<R> {
    type Output = RingVec<R>;

    fn mul(self, rhs: &'a RingVec<R>) -> (r: RingVec<R>)
        ensures
            r@.len() == self.rows_spec(),
            forall|i: int|
                0 <= i < self.rows_spec() ==> #[trigger] r@[i] == dot_spec(
                    mat_row(self.entries_spec(), self.cols_spec(), i),
                    rhs@,
                ),
    {
        self.mul_vec(rhs)
    }
}

impl<'a, R: Ring> vstd::std_specs::ops::MulSpecImpl<&'a RingVec<R>> for RingMat<R> {
    open spec fn obeys_mul_spec() -> bool {
        false
    }

    open spec fn mul_req(self, rhs: &'a RingVec<R>) -> bool {
        &&& R::params_ok()
        &&& self.shape_ok()
        &&& self.cols_spec() == rhs@.len()
        &&& seq_wf(self.entries_spec())
        &&& seq_wf(rhs@)
    }

    open spec fn mul_spec(self, rhs: &'a RingVec<R>) -> RingVec<R> {
        *rhs
    }
}

impl<'a, R: Ring> core::ops::Add<&'a RingMat<R>> for RingMat<R> {
    type Output = Self;

    fn add(self, rhs: &'a RingMat<R>) -> (r: Self)
        ensures
            r.shape_ok(),
            r.rows_spec() == self.rows_spec(),
            r.cols_spec() == self.cols_spec(),
            forall|k: int|
                0 <= k < self.entries_spec().len() ==> #[trigger] r.entries_spec()[k] == R::add_spec(
                    self.entries_spec()[k],
                    rhs.entries_spec()[k],
                ),
    {
        self.add_mat(rhs)
    }
}

impl<'a, R: Ring> vstd::std_specs::ops::AddSpecImpl<&'a RingMat<R>> for RingMat<R> {
    open spec fn obeys_add_spec() -> bool {
        false
    }

    open spec fn add_req(self, rhs: &'a RingMat<R>) -> bool {
        &&& self.shape_ok()
        &&& rhs.shape_ok()
        &&& self.rows_spec() == rhs.rows_spec()
        &&& self.cols_spec() == rhs.cols_spec()
        &&& seq_wf(self.entries_spec())
        &&& seq_wf(rhs.entries_spec())
    }

    open spec fn add_spec(self, rhs: &'a RingMat<R>) -> Self {
        arbitrary()
    }
}

impl<'a, R: Ring> core::ops::Sub<&'a RingMat<R>> for RingMat<R> {
    type Output = Self;

    fn sub(self, rhs: &'a RingMat<R>) -> (r: Self)
        ensures
            r.shape_ok(),
            r.rows_spec() == self.rows_spec(),
            r.cols_spec() == self.cols_spec(),
            forall|k: int|
                0 <= k < self.entries_spec().len() ==> #[trigger] r.entries_spec()[k] == R::sub_spec(
                    self.entries_spec()[k],
                    rhs.entries_spec()[k],
                ),
    {
        self.sub_mat(rhs)
    }
}

impl<'a, R: Ring> vstd::std_specs::ops::SubSpecImpl<&'a RingMat<R>> for RingMat<R> {
    open spec fn obeys_sub_spec() -> bool {
        false
    }

    open spec fn sub_req(self, rhs: &'a RingMat<R>) -> bool {
        &&& self.shape_ok()
        &&& rhs.shape_ok()
        &&& self.rows_spec() == rhs.rows_spec()
        &&& self.cols_spec() == rhs.cols_spec()
        &&& seq_wf(self.entries_spec())
        &&& seq_wf(rhs.entries_spec())
    }

    open spec fn sub_spec(self, rhs: &'a RingMat<R>) -> Self {
        arbitrary()
    }
}

impl<R: Ring> core::ops::Add for RingMat<R> {
    type Output = Self;

    fn add(self, rhs: Self) -> (r: Self)
        ensures
            r.shape_ok(),
            r.rows_spec() == self.rows_spec(),
            r.cols_spec() == self.cols_spec(),
            forall|k: int|
                0 <= k < self.entries_spec().len() ==> #[trigger] r.entries_spec()[k] == R::add_spec(
                    self.entries_spec()[k],
                    rhs.entries_spec()[k],
                ),
    {
        self.add_mat(&rhs)
    }
}

impl<R: Ring> vstd::std_specs::ops::AddSpecImpl for RingMat<R> {
    open spec fn obeys_add_spec() -> bool {
        false
    }

    open spec fn add_req(self, rhs: Self) -> bool {
        &&& self.shape_ok()
        &&& rhs.shape_ok()
        &&& self.rows_spec() == rhs.rows_spec()
        &&& self.cols_spec() == rhs.cols_spec()
        &&& seq_wf(self.entries_spec())
        &&& seq_wf(rhs.entries_spec())
    }

    open spec fn add_spec(self, rhs: Self) -> Self {
        arbitrary()
    }
}

impl<R: Ring> core::ops::Sub for RingMat<R> {
    type Output = Self;

    fn sub(self, rhs: Self) -> (r: Self)
        ensures
            r.shape_ok(),
            r.rows_spec() == self.rows_spec(),
            r.cols_spec() == self.cols_spec(),
            forall|k: int|
                0 <= k < self.entries_spec().len() ==> #[trigger] r.entries_spec()[k] == R::sub_spec(
                    self.entries_spec()[k],
                    rhs.entries_spec()[k],
                ),
    {
        self.sub_mat(&rhs)
    }
}

impl<R: Ring> vstd::std_specs::ops::SubSpecImpl for RingMat<R> {
    open spec fn obeys_sub_spec() -> bool {
        false
    }

    open spec fn sub_req(self, rhs: Self) -> bool {
        &&& self.shape_ok()
        &&& rhs.shape_ok()
        &&& self.rows_spec() == rhs.rows_spec()
        &&& self.cols_spec() == rhs.cols_spec()
        &&& seq_wf(self.entries_spec())
        &&& seq_wf(rhs.entries_spec())
    }

    open spec fn sub_spec(self, rhs: Self) -> Self {
        arbitrary()
    }
}


/// `2^64`, the value bound of an eight-byte header field.
proof fn lemma_header_pow()
    ensures
        byte_pow(8) == 0x1_0000_0000_0000_0000,
{
    reveal_with_fuel(byte_pow, 9);
}

/// The total encoded size of `entries`, plus `header` bytes.
pub(crate) fn encoded_size<R: CanonicalSerialize>(entries: &[R], header: usize) -> (r: usize)
    requires
        all_can_encode(entries@),
        header + concat_encodings(entries@).len() <= usize::MAX,
    ensures
        r == header + concat_encodings(entries@).len(),
{
    let mut total = header;
    let mut i: usize = 0;
    proof {
        assert(entries@.take(0) =~= Seq::<R>::empty());
    }
    while i < entries.len()
        invariant
            all_can_encode(entries@),
            header + concat_encodings(entries@).len() <= usize::MAX,
            i <= entries@.len(),
            total == header + concat_encodings(entries@.take(i as int)).len(),
        decreases entries@.len() - i,
    {
        proof {
            lemma_concat_take(entries@, i as nat);
            lemma_concat_take_le(entries@, (i + 1) as nat);
        }
        total = total + entries[i].serialized_size();
        i = i + 1;
    }
    proof {
        assert(entries@.take(entries@.len() as int) =~= entries@);
    }
    total
}

impl<R: Ring + CanonicalSerialize> CanonicalSerialize for RingVec<R> {
    /// The length as eight little-endian bytes, then the entries' encodings.
    open spec fn encoding(&self) -> Seq<u8> {
        le_encode(self@.len(), 8) + concat_encodings(self@)
    }

    open spec fn can_encode(&self) -> bool {
        &&& all_can_encode(self@)
        &&& self@.len() <= usize::MAX
        &&& 8 + concat_encodings(self@).len() <= usize::MAX
    }

    fn serialized_size(&self) -> (r: usize) {
        proof {
            lemma_le_encode(self@.len(), 8);
        }
        encoded_size(self.entries.as_slice(), 8)
    }

    fn serialize_into(&self, buf: &mut Vec<u8>) -> (r: Result<(), SerializationError>) {
        let header = u64_to_le_bytes(self.entries.len() as u64, 8);
        proof {
            lemma_header_pow();
            vstd::arithmetic::div_mod::lemma_small_mod(self@.len(), byte_pow(8));
            lemma_le_encode(self@.len(), 8);
            lemma_le_encode_value(header@);
        }
        let ghost start = buf@;
        append_bytes(buf, header.as_slice());
        serialize_entries(self.entries.as_slice(), buf);
        proof {
            assert(buf@ =~= start + self.encoding());
        }
        Ok(())
    }
}

impl<R: Ring + CanonicalDeserialize> CanonicalDeserialize for RingVec<R> {
    /// An eight-byte length `len`, then `len` entries.
    open spec fn decodes(data: Seq<u8>, v: Self, n: nat) -> bool {
        &&& 8 <= n <= usize::MAX
        &&& 8 <= data.len()
        &&& le_value(data.subrange(0, 8)) == v@.len()
        &&& v@.len() <= usize::MAX
        &&& decodes_seq(data.skip(8), v@, (n - 8) as nat)
    }

    open spec fn is_short(data: Seq<u8>) -> bool {
        ||| data.len() < 8
        ||| (le_value(data.subrange(0, 8)) <= usize::MAX && short_seq::<R>(
            data.skip(8),
            le_value(data.subrange(0, 8)),
        ))
    }

    open spec fn decode_ready() -> bool {
        R::decode_ready()
    }

    proof fn lemma_decodes_unique(data: Seq<u8>, v1: Self, n1: nat, v2: Self, n2: nat) {
        lemma_seq_offset_unique(data.skip(8), v1@, (n1 - 8) as nat, v2@, (n2 - 8) as nat);
    }

    proof fn lemma_decodes_not_short(data: Seq<u8>, v: Self, n: nat) {
        lemma_seq_not_short(data.skip(8), v@, (n - 8) as nat);
    }

    proof fn lemma_decodes_prefix(data: Seq<u8>, v: Self, n: nat, rest: Seq<u8>) {
        let d = data.skip(8);
        let m = (n - 8) as nat;
        lemma_seq_prefix(d, v@, m, rest);
        let d2 = data.subrange(0, n as int) + rest;
        assert(d2.subrange(0, 8) =~= data.subrange(0, 8));
        assert(d2.skip(8) =~= d.subrange(0, m as int) + rest);
        lemma_le_encode_value(data.subrange(0, 8));
        assert(data.subrange(0, n as int) =~= data.subrange(0, 8) + d.subrange(0, m as int));
    }

    proof fn lemma_round_trip(v: Self, rest: Seq<u8>) {
        lemma_seq_round_trip(v@, rest);
        lemma_le_encode(v@.len(), 8);
        lemma_header_pow();
        vstd::arithmetic::div_mod::lemma_small_mod(v@.len(), byte_pow(8));
        let d = v.encoding() + rest;
        assert(d.subrange(0, 8) =~= le_encode(v@.len(), 8));
        assert(d.skip(8) =~= concat_encodings(v@) + rest);
    }

    fn deserialize(data: &[u8]) -> (r: Result<(Self, usize), SerializationError>) {
        if data.len() < 8 {
            proof {
                assert(Self::is_short(data@));
            }
            return Err(SerializationError::UnexpectedEnd);
        }
        let len = le_bytes_to_u64(data, 0, 8);
        if len > usize::MAX as u64 {
            proof {
                assert(!Self::is_short(data@));
            }
            return Err(SerializationError::InvalidData("vector length too large".to_owned()));
        }
        let count = len as usize;
        match deserialize_entries::<R>(data, 8, count) {
            Ok((entries, consumed)) => {
                let v = RingVec { entries };
                Ok((v, consumed))
            },
            Err(e) => {
                proof {
                    assert(Self::is_short(data@) == short_seq::<R>(data@.skip(8), count as nat));
                }
                Err(e)
            },
        }
    }
}

impl<R: Ring + CanonicalSerialize> CanonicalSerialize for RingMat<R> {
    /// The row and column counts as eight little-endian bytes each, then the
    /// row-major entries' encodings.
    open spec fn encoding(&self) -> Seq<u8> {
        le_encode(self.rows_spec(), 8) + le_encode(self.cols_spec(), 8) + concat_encodings(self.entries_spec())
    }

    open spec fn can_encode(&self) -> bool {
        &&& self.shape_ok()
        &&& self.rows_spec() * self.cols_spec() <= usize::MAX
        &&& all_can_encode(self.entries_spec())
        &&& 16 + concat_encodings(self.entries_spec()).len() <= usize::MAX
    }

    fn serialized_size(&self) -> (r: usize) {
        proof {
            lemma_le_encode(self.rows_spec(), 8);
            lemma_le_encode(self.cols_spec(), 8);
        }
        encoded_size(self.entries.as_slice(), 16)
    }

    fn serialize_into(&self, buf: &mut Vec<u8>) -> (r: Result<(), SerializationError>) {
        let rows = u64_to_le_bytes(self.rows as u64, 8);
        let cols = u64_to_le_bytes(self.cols as u64, 8);
        let ghost start = buf@;
        append_bytes(buf, rows.as_slice());
        append_bytes(buf, cols.as_slice());
        serialize_entries(self.entries.as_slice(), buf);
        proof {
            assert(buf@ =~= start + self.encoding());
        }
        Ok(())
    }
}

impl<R: Ring + CanonicalDeserialize> CanonicalDeserialize for RingMat<R> {
    /// Eight-byte row and column counts whose product fits in `usize`, then that
    /// many entries.
    open spec fn decodes(data: Seq<u8>, m: Self, n: nat) -> bool {
        &&& 16 <= n <= usize::MAX
        &&& 16 <= data.len()
        &&& le_value(data.subrange(0, 8)) == m.rows_spec()
        &&& le_value(data.subrange(8, 16)) == m.cols_spec()
        &&& m.rows_spec() <= usize::MAX
        &&& m.cols_spec() <= usize::MAX
        &&& m.rows_spec() * m.cols_spec() <= usize::MAX
        &&& m.shape_ok()
        &&& decodes_seq(data.skip(16), m.entries_spec(), (n - 16) as nat)
    }

    open spec fn is_short(data: Seq<u8>) -> bool {
        ||| data.len() < 16
        ||| ({
            let r = le_value(data.subrange(0, 8));
            let c = le_value(data.subrange(8, 16));
            r <= usize::MAX && c <= usize::MAX && r * c <= usize::MAX && short_seq::<R>(data.skip(16), r * c)
        })
    }

    open spec fn decode_ready() -> bool {
        R::decode_ready()
    }

    proof fn lemma_decodes_unique(data: Seq<u8>, v1: Self, n1: nat, v2: Self, n2: nat) {
        lemma_seq_offset_unique(data.skip(16), v1.entries_spec(), (n1 - 16) as nat, v2.entries_spec(), (n2 - 16) as nat);
    }

    proof fn lemma_decodes_not_short(data: Seq<u8>, v: Self, n: nat) {
        lemma_seq_not_short(data.skip(16), v.entries_spec(), (n - 16) as nat);
    }

    proof fn lemma_decodes_prefix(data: Seq<u8>, v: Self, n: nat, rest: Seq<u8>) {
        let d = data.skip(16);
        let m = (n - 16) as nat;
        lemma_seq_prefix(d, v.entries_spec(), m, rest);
        let d2 = data.subrange(0, n as int) + rest;
        assert(d2.subrange(0, 8) =~= data.subrange(0, 8));
        assert(d2.subrange(8, 16) =~= data.subrange(8, 16));
        assert(d2.skip(16) =~= d.subrange(0, m as int) + rest);
        lemma_le_encode_value(data.subrange(0, 8));
        lemma_le_encode_value(data.subrange(8, 16));
        assert(data.subrange(0, n as int) =~= data.subrange(0, 8) + data.subrange(8, 16) + d.subrange(0, m as int));
    }

    proof fn lemma_round_trip(v: Self, rest: Seq<u8>) {
        lemma_seq_round_trip(v.entries_spec(), rest);
        lemma_le_encode(v.rows_spec(), 8);
        lemma_le_encode(v.cols_spec(), 8);
        lemma_header_pow();
        vstd::arithmetic::div_mod::lemma_small_mod(v.rows_spec(), byte_pow(8));
        vstd::arithmetic::div_mod::lemma_small_mod(v.cols_spec(), byte_pow(8));
        let d = v.encoding() + rest;
        assert(d.subrange(0, 8) =~= le_encode(v.rows_spec(), 8));
        assert(d.subrange(8, 16) =~= le_encode(v.cols_spec(), 8));
        assert(d.skip(16) =~= concat_encodings(v.entries_spec()) + rest);
    }

    fn deserialize(data: &[u8]) -> (r: Result<(Self, usize), SerializationError>) {
        if data.len() < 16 {
            proof {
                assert(Self::is_short(data@));
            }
            return Err(SerializationError::UnexpectedEnd);
        }
        let rows64 = le_bytes_to_u64(data, 0, 8);
        let cols64 = le_bytes_to_u64(data, 8, 8);
        proof {
            assert(data@.subrange(8, 16) =~= data@.subrange(8int, 8int + 8));
        }
        if rows64 > usize::MAX as u64 {
            proof {
                assert(!Self::is_short(data@));
            }
            return Err(SerializationError::InvalidData("matrix row count too large".to_owned()));
        }
        if cols64 > usize::MAX as u64 {
            proof {
                assert(!Self::is_short(data@));
            }
            return Err(SerializationError::InvalidData("matrix column count too large".to_owned()));
        }
        let rows = rows64 as usize;
        let cols = cols64 as usize;
        let entry_count = match rows.checked_mul(cols) {
            Some(c) => c,
            None => {
                proof {
                    assert(!Self::is_short(data@));
                }
                return Err(SerializationError::InvalidData("matrix shape too large".to_owned()));
            },
        };
        match deserialize_entries::<R>(data, 16, entry_count) {
            Ok((entries, consumed)) => Ok((RingMat { rows, cols, entries }, consumed)),
            Err(e) => {
                proof {
                    assert(Self::is_short(data@) == short_seq::<R>(data@.skip(16), entry_count as nat));
                }
                Err(e)
            },
        }
    }
}

} // verus!
