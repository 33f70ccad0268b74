//! Core algebraic traits: [`Ring`], [`IntegerRing`], [`Field`].
//!
//! Each trait carries a mathematical model: spec functions for the ring
//! operations, and proof functions stating the ring axioms, which every
//! implementation proves for its own representation.
use vstd::prelude::*;

verus! {

/// Elementwise validity of a sequence of ring elements.
pub open spec fn seq_wf<R: Ring>(s: Seq<R>) -> bool {
    forall|i: int| 0 <= i < s.len() ==> (#[trigger] s[i]).wf()
}

/// `sum_{i < len} a[i] * b[i]`, accumulated from index 0 upward.
pub open spec fn dot_spec<R: Ring>(a: Seq<R>, b: Seq<R>) -> R
    decreases a.len(),
{
    if a.len() == 0 {
        R::zero_spec()
    } else {
        R::add_spec(
            dot_spec(a.drop_last(), b.subrange(0, a.len() - 1)),
            R::mul_spec(a.last(), b[a.len() - 1]),
        )
    }
}

/// `a^e` as repeated multiplication.
pub open spec fn pow_spec<R: Ring>(a: R, e: nat) -> R
    decreases e,
{
    if e == 0 {
        R::one_spec()
    } else {
        R::mul_spec(pow_spec(a, (e - 1) as nat), a)
    }
}

/// A commutative ring with identity.
///
/// `wf` says that a value is a canonical representation of an element; the
/// `*_spec` functions are the ring operations on such values, and the proof
/// functions below are the ring axioms.
pub trait Ring: Sized + Copy {
    /// The type's own parameters (a modulus, a width) are admissible.
    spec fn params_ok() -> bool;

    /// The value is a canonical representation of a ring element.
    spec fn wf(self) -> bool;

    spec fn zero_spec() -> Self;

    spec fn one_spec() -> Self;

    spec fn add_spec(a: Self, b: Self) -> Self;

    spec fn sub_spec(a: Self, b: Self) -> Self;

    spec fn mul_spec(a: Self, b: Self) -> Self;

    spec fn neg_spec(a: Self) -> Self;

    /// A valid element exists only for admissible parameters.
    proof fn lemma_wf_params(a: Self)
        requires
            a.wf(),
        ensures
            Self::params_ok(),
    ;

    /// The identities are valid elements.
    proof fn lemma_identities_wf()
        requires
            Self::params_ok(),
        ensures
            Self::zero_spec().wf(),
            Self::one_spec().wf(),
    ;

    /// The operations stay inside the set of valid elements.
    proof fn lemma_closed(a: Self, b: Self)
        requires
            a.wf(),
            b.wf(),
        ensures
            Self::add_spec(a, b).wf(),
            Self::sub_spec(a, b).wf(),
            Self::mul_spec(a, b).wf(),
            Self::neg_spec(a).wf(),
    ;

    /// Addition is a commutative group with identity `0`, and `a - b = a + (-b)`.
    proof fn lemma_add_laws(a: Self, b: Self, c: Self)
        requires
            a.wf(),
            b.wf(),
            c.wf(),
        ensures
            Self::add_spec(a, b) == Self::add_spec(b, a),
            Self::add_spec(Self::add_spec(a, b), c) == Self::add_spec(a, Self::add_spec(b, c)),
            Self::add_spec(a, Self::zero_spec()) == a,
            Self::add_spec(a, Self::neg_spec(a)) == Self::zero_spec(),
            Self::sub_spec(a, b) == Self::add_spec(a, Self::neg_spec(b)),
    ;

    /// Multiplication is commutative and associative with identity `1`, and
    /// distributes over addition.
    proof fn lemma_mul_laws(a: Self, b: Self, c: Self)
        requires
            a.wf(),
            b.wf(),
            c.wf(),
        ensures
            Self::mul_spec(a, b) == Self::mul_spec(b, a),
            Self::mul_spec(Self::mul_spec(a, b), c) == Self::mul_spec(a, Self::mul_spec(b, c)),
            Self::mul_spec(a, Self::one_spec()) == a,
            Self::mul_spec(a, Self::zero_spec()) == Self::zero_spec(),
            Self::mul_spec(a, Self::add_spec(b, c)) == Self::add_spec(
                Self::mul_spec(a, b),
                Self::mul_spec(a, c),
            ),
    ;

    /// The additive identity.
    fn zero() -> (r: Self)
        requires
            Self::params_ok(),
        ensures
            r == Self::zero_spec(),
            r.wf(),
    ;

    /// The multiplicative identity.
    fn one() -> (r: Self)
        requires
            Self::params_ok(),
        ensures
            r == Self::one_spec(),
            r.wf(),
    ;

    /// Returns `true` exactly for the additive identity.
    fn is_zero(&self) -> (b: bool)
        requires
            self.wf(),
        ensures
            b == (*self == Self::zero_spec()),
    ;

    /// Returns `true` exactly for the multiplicative identity.
    fn is_one(&self) -> (b: bool)
        requires
            self.wf(),
        ensures
            b == (*self == Self::one_spec()),
    ;

    /// `a + b`.
    fn add_ref(a: &Self, b: &Self) -> (r: Self)
        requires
            a.wf(),
            b.wf(),
        ensures
            r == Self::add_spec(*a, *b),
            r.wf(),
    ;

    /// `a - b`.
    fn sub_ref(a: &Self, b: &Self) -> (r: Self)
        requires
            a.wf(),
            b.wf(),
        ensures
            r == Self::sub_spec(*a, *b),
            r.wf(),
    ;

    /// `a * b`.
    fn mul_ref(a: &Self, b: &Self) -> (r: Self)
        requires
            a.wf(),
            b.wf(),
        ensures
            r == Self::mul_spec(*a, *b),
            r.wf(),
    ;

    /// `-a`.
    fn neg_ref(a: &Self) -> (r: Self)
        requires
            a.wf(),
        ensures
            r == Self::neg_spec(*a),
            r.wf(),
    ;

    /// `self + self`.
    fn double(&self) -> (r: Self)
        requires
            self.wf(),
        ensures
            r == Self::add_spec(*self, *self),
            r.wf(),
    {
        Self::add_ref(self, self)
    }

    /// `self * self`.
    fn square(&self) -> (r: Self)
        requires
            self.wf(),
        ensures
            r == Self::mul_spec(*self, *self),
            r.wf(),
    {
        Self::mul_ref(self, self)
    }

}

/// `dst[i] += src[i]` for every index.
pub fn ring_add_assign_slice<R: Ring>(dst: &mut [R], src: &[R])
    requires
        old(dst)@.len() == src@.len(),
        seq_wf(old(dst)@),
        seq_wf(src@),
    ensures
        final(dst)@.len() == old(dst)@.len(),
        forall|i: int|
            0 <= i < src@.len() ==> #[trigger] final(dst)@[i] == R::add_spec(
                old(dst)@[i],
                src@[i],
            ),
        seq_wf(final(dst)@),
{
    let n = dst.len();
    let mut i: usize = 0;
    while i < n
        invariant
            n == dst@.len(),
            n == src@.len(),
            0 <= i <= n,
            seq_wf(old(dst)@),
            seq_wf(src@),
            seq_wf(dst@),
            forall|j: int| 0 <= j < i ==> #[trigger] dst@[j] == R::add_spec(old(dst)@[j], src@[j]),
            forall|j: int| i <= j < n ==> #[trigger] dst@[j] == old(dst)@[j],
        decreases n - i,
    {
        let v = R::add_ref(&dst[i], &src[i]);
        dst[i] = v;
        i = i + 1;
    }
}

/// `dst[i] -= src[i]` for every index.
pub fn ring_sub_assign_slice<R: Ring>(dst: &mut [R], src: &[R])
    requires
        old(dst)@.len() == src@.len(),
        seq_wf(old(dst)@),
        seq_wf(src@),
    ensures
        final(dst)@.len() == old(dst)@.len(),
        forall|i: int|
            0 <= i < src@.len() ==> #[trigger] final(dst)@[i] == R::sub_spec(
                old(dst)@[i],
                src@[i],
            ),
        seq_wf(final(dst)@),
{
    let n = dst.len();
    let mut i: usize = 0;
    while i < n
        invariant
            n == dst@.len(),
            n == src@.len(),
            0 <= i <= n,
            seq_wf(old(dst)@),
            seq_wf(src@),
            seq_wf(dst@),
            forall|j: int| 0 <= j < i ==> #[trigger] dst@[j] == R::sub_spec(old(dst)@[j], src@[j]),
            forall|j: int| i <= j < n ==> #[trigger] dst@[j] == old(dst)@[j],
        decreases n - i,
    {
        let v = R::sub_ref(&dst[i], &src[i]);
        dst[i] = v;
        i = i + 1;
    }
}

/// `dst[i] *= scalar` for every index.
pub fn ring_scalar_mul_slice<R: Ring>(dst: &mut [R], scalar: &R)
    requires
        seq_wf(old(dst)@),
        scalar.wf(),
    ensures
        final(dst)@.len() == old(dst)@.len(),
        forall|i: int|
            0 <= i < old(dst)@.len() ==> #[trigger] final(dst)@[i] == R::mul_spec(
                old(dst)@[i],
                *scalar,
            ),
        seq_wf(final(dst)@),
{
    let n = dst.len();
    let mut i: usize = 0;
    while i < n
        invariant
            n == dst@.len(),
            0 <= i <= n,
            scalar.wf(),
            seq_wf(old(dst)@),
            seq_wf(dst@),
            forall|j: int| 0 <= j < i ==> #[trigger] dst@[j] == R::mul_spec(old(dst)@[j], *scalar),
            forall|j: int| i <= j < n ==> #[trigger] dst@[j] == old(dst)@[j],
        decreases n - i,
    {
        let v = R::mul_ref(&dst[i], scalar);
        dst[i] = v;
        i = i + 1;
    }
}

/// `dst[i] *= rhs[i]` for every index.
pub fn ring_pointwise_mul_assign_slice<R: Ring>(dst: &mut [R], rhs: &[R])
    requires
        old(dst)@.len() == rhs@.len(),
        seq_wf(old(dst)@),
        seq_wf(rhs@),
    ensures
        final(dst)@.len() == old(dst)@.len(),
        forall|i: int|
            0 <= i < rhs@.len() ==> #[trigger] final(dst)@[i] == R::mul_spec(
                old(dst)@[i],
                rhs@[i],
            ),
        seq_wf(final(dst)@),
{
    let n = dst.len();
    let mut i: usize = 0;
    while i < n
        invariant
            n == dst@.len(),
            n == rhs@.len(),
            0 <= i <= n,
            seq_wf(old(dst)@),
            seq_wf(rhs@),
            seq_wf(dst@),
            forall|j: int| 0 <= j < i ==> #[trigger] dst@[j] == R::mul_spec(old(dst)@[j], rhs@[j]),
            forall|j: int| i <= j < n ==> #[trigger] dst@[j] == old(dst)@[j],
        decreases n - i,
    {
        let v = R::mul_ref(&dst[i], &rhs[i]);
        dst[i] = v;
        i = i + 1;
    }
}

/// `sum_i lhs[i] * rhs[i]`.
pub fn ring_dot_product<R: Ring>(lhs: &[R], rhs: &[R]) -> (r: R)
    requires
        lhs@.len() == rhs@.len(),
        seq_wf(lhs@),
        seq_wf(rhs@),
        R::params_ok(),
    ensures
        r == dot_spec(lhs@, rhs@),
        r.wf(),
{
    let n = lhs.len();
    let mut acc = R::zero();

    let mut i: usize = 0;
    while i < n
        invariant
            n == lhs@.len(),
            n == rhs@.len(),
            0 <= i <= n,
            seq_wf(lhs@),
            seq_wf(rhs@),
            acc.wf(),
            acc == dot_spec(lhs@.subrange(0, i as int), rhs@.subrange(0, i as int)),
        decreases n - i,
    {
        let p = R::mul_ref(&lhs[i], &rhs[i]);
        proof {
            let a = lhs@.subrange(0, i + 1);
            let b = rhs@.subrange(0, i + 1);
            assert(a.drop_last() =~= lhs@.subrange(0, i as int));
            assert(b.subrange(0, a.len() - 1) =~= rhs@.subrange(0, i as int));
        }
        acc = R::add_ref(&acc, &p);
        i = i + 1;
    }
    proof {
        assert(lhs@.subrange(0, n as int) =~= lhs@);
        assert(rhs@.subrange(0, n as int) =~= rhs@);
    }
    acc
}

/// `dst[i] += src[i] * scalar` for every index.
pub fn ring_add_assign_scaled_slice<R: Ring>(dst: &mut [R], src: &[R], scalar: &R)
    requires
        old(dst)@.len() == src@.len(),
        seq_wf(old(dst)@),
        seq_wf(src@),
        scalar.wf(),
    ensures
        final(dst)@.len() == old(dst)@.len(),
        forall|i: int|
            0 <= i < src@.len() ==> #[trigger] final(dst)@[i] == R::add_spec(
                old(dst)@[i],
                R::mul_spec(src@[i], *scalar),
            ),
        seq_wf(final(dst)@),
{
    let n = dst.len();
    let mut i: usize = 0;
    while i < n
        invariant
            n == dst@.len(),
            n == src@.len(),
            0 <= i <= n,
            scalar.wf(),
            seq_wf(old(dst)@),
            seq_wf(src@),
            seq_wf(dst@),
            forall|j: int|
                0 <= j < i ==> #[trigger] dst@[j] == R::add_spec(
                    old(dst)@[j],
                    R::mul_spec(src@[j], *scalar),
                ),
            forall|j: int| i <= j < n ==> #[trigger] dst@[j] == old(dst)@[j],
        decreases n - i,
    {
        let p = R::mul_ref(&src[i], scalar);
        let v = R::add_ref(&dst[i], &p);
        dst[i] = v;
        i = i + 1;
    }
}

/// `self^exp` by repeated squaring.
pub fn ring_pow<R: Ring>(this: &R, exp: u64) -> (r: R)
    requires
        this.wf(),
    ensures
        r == pow_spec(*this, exp as nat),
        r.wf(),
{
    proof {
        R::lemma_wf_params(*this);
    }
    let mut base = *this;
    let mut result = R::one();
    let mut e = exp;
    proof {
        R::lemma_identities_wf();
        lemma_pow_mul_one(*this, exp as nat);
    }
    while e > 0
        invariant
            this.wf(),
            base.wf(),
            result.wf(),
            R::params_ok(),
            R::mul_spec(result, pow_spec(base, e as nat)) == pow_spec(*this, exp as nat),
        decreases e,
    {
        let ghost old_e = e;
        let ghost old_base = base;
        let ghost old_result = result;
        if e & 1 == 1 {
            result = R::mul_ref(&result, &base);
        }
        base = R::square(&base);
        e = e >> 1;
        proof {
            assert(e == old_e / 2) by (bit_vector)
                requires e == old_e >> 1;
            assert((old_e & 1 == 1) == (old_e % 2 == 1)) by (bit_vector);
            lemma_pow_square_split(old_base, old_result, old_e as nat);
        }
    }
    proof {
        lemma_pow_basics(base);
        R::lemma_mul_laws(result, R::one_spec(), R::one_spec());
    }
    result
}

/// `a^0 = 1` and `a^1 = a`.
pub proof fn lemma_pow_basics<R: Ring>(a: R)
    requires
        a.wf(),
    ensures
        pow_spec(a, 0) == R::one_spec(),
        pow_spec(a, 1) == a,
{
    R::lemma_wf_params(a);
    R::lemma_identities_wf();
    assert(pow_spec(a, 0) == R::one_spec());
    R::lemma_mul_laws(a, R::one_spec(), R::one_spec());
    R::lemma_mul_laws(R::one_spec(), a, a);
}

/// Powers of a valid element are valid.
pub proof fn lemma_pow_wf<R: Ring>(a: R, e: nat)
    requires
        a.wf(),
    ensures
        pow_spec(a, e).wf(),
    decreases e,
{
    R::lemma_wf_params(a);
    R::lemma_identities_wf();
    if e > 0 {
        lemma_pow_wf(a, (e - 1) as nat);
        R::lemma_closed(pow_spec(a, (e - 1) as nat), a);
    }
}

/// `a^(m + n) = a^m * a^n`.
pub proof fn lemma_pow_adds<R: Ring>(a: R, m: nat, n: nat)
    requires
        a.wf(),
    ensures
        pow_spec(a, m + n) == R::mul_spec(pow_spec(a, m), pow_spec(a, n)),
    decreases n,
{
    R::lemma_wf_params(a);
    R::lemma_identities_wf();
    lemma_pow_wf(a, m);
    if n == 0 {
        R::lemma_mul_laws(pow_spec(a, m), R::one_spec(), R::one_spec());
    } else {
        lemma_pow_adds(a, m, (n - 1) as nat);
        lemma_pow_wf(a, (n - 1) as nat);
        R::lemma_mul_laws(pow_spec(a, m), pow_spec(a, (n - 1) as nat), a);
        assert((m + n - 1) as nat == m + (n - 1) as nat);
    }
}

/// `(a * b)^n = a^n * b^n`.
pub proof fn lemma_pow_mul_distributes<R: Ring>(a: R, b: R, n: nat)
    requires
        a.wf(),
        b.wf(),
    ensures
        pow_spec(R::mul_spec(a, b), n) == R::mul_spec(pow_spec(a, n), pow_spec(b, n)),
    decreases n,
{
    R::lemma_wf_params(a);
    R::lemma_identities_wf();
    let ab = R::mul_spec(a, b);
    if n == 0 {
        R::lemma_mul_laws(R::one_spec(), R::one_spec(), R::one_spec());
    } else {
        let n1 = (n - 1) as nat;
        lemma_pow_mul_distributes(a, b, n1);
        lemma_pow_wf(a, n1);
        lemma_pow_wf(b, n1);
        let pa = pow_spec(a, n1);
        let pb = pow_spec(b, n1);
        R::lemma_closed(pa, pb);
        R::lemma_closed(pa, a);
        R::lemma_closed(pb, a);
        R::lemma_closed(a, pb);
        R::lemma_closed(R::mul_spec(pa, pb), a);
        // (pa * pb) * (a * b) = ((pa * pb) * a) * b
        R::lemma_mul_laws(R::mul_spec(pa, pb), a, b);
        // (pa * pb) * a = pa * (pb * a) = pa * (a * pb) = (pa * a) * pb
        R::lemma_mul_laws(pa, pb, a);
        R::lemma_mul_laws(pb, a, a);
        R::lemma_mul_laws(pa, a, pb);
        // ((pa * a) * pb) * b = (pa * a) * (pb * b)
        R::lemma_mul_laws(R::mul_spec(pa, a), pb, b);
    }
}

/// `(a * a)^k = a^(2k)`.
pub proof fn lemma_pow_square<R: Ring>(a: R, k: nat)
    requires
        a.wf(),
    ensures
        pow_spec(R::mul_spec(a, a), k) == pow_spec(a, 2 * k),
{
    lemma_pow_mul_distributes(a, a, k);
    lemma_pow_adds(a, k, k);
    assert(k + k == 2 * k);
}

proof fn lemma_pow_mul_one<R: Ring>(a: R, e: nat)
    requires
        a.wf(),
    ensures
        R::mul_spec(R::one_spec(), pow_spec(a, e)) == pow_spec(a, e),
{
    R::lemma_wf_params(a);
    R::lemma_identities_wf();
    lemma_pow_wf(a, e);
    R::lemma_mul_laws(pow_spec(a, e), R::one_spec(), R::one_spec());
    R::lemma_mul_laws(R::one_spec(), pow_spec(a, e), pow_spec(a, e));
}

/// One step of square-and-multiply preserves `result * base^e`.
proof fn lemma_pow_square_split<R: Ring>(base: R, result: R, e: nat)
    requires
        base.wf(),
        result.wf(),
        e > 0,
    ensures
        e % 2 == 1 ==> R::mul_spec(
            R::mul_spec(result, base),
            pow_spec(R::mul_spec(base, base), e / 2),
        ) == R::mul_spec(result, pow_spec(base, e)),
        e % 2 == 0 ==> R::mul_spec(result, pow_spec(R::mul_spec(base, base), e / 2))
            == R::mul_spec(result, pow_spec(base, e)),
{
    let k = e / 2;
    lemma_pow_square(base, k);
    lemma_pow_wf(base, 2 * k);
    if e % 2 == 1 {
        lemma_pow_adds(base, 1, 2 * k);
        lemma_pow_basics(base);
        assert(1 + 2 * k == e);
        R::lemma_mul_laws(result, base, pow_spec(base, 2 * k));
    } else {
        assert(2 * k == e);
    }
}

/// An integer ring `Z_q`: every element has a canonical value in `[0, q)`.
pub trait IntegerRing: Ring {
    /// The modulus `q` (which may be `2^64`).
    spec fn modulus_spec() -> nat;

    /// The canonical value of an element.
    spec fn value(self) -> nat;

    /// The operations agree with arithmetic modulo `q`, and an element is
    /// determined by its value.
    proof fn lemma_value(a: Self, b: Self)
        requires
            a.wf(),
            b.wf(),
        ensures
            Self::modulus_spec() > 1,
            a.value() < Self::modulus_spec(),
            Self::add_spec(a, b).value() as int == ((a.value() + b.value()) as int) % (Self::modulus_spec() as int),
            Self::sub_spec(a, b).value() as int == (a.value() - b.value()) % (Self::modulus_spec() as int),
            Self::mul_spec(a, b).value() as int == ((a.value() * b.value()) as int) % (Self::modulus_spec() as int),
            Self::neg_spec(a).value() as int == (Self::modulus_spec() - a.value()) % (
            Self::modulus_spec() as int),
            a.value() == b.value() ==> a == b,
    ;

    /// The identities have values `0` and `1`.
    proof fn lemma_identity_values()
        requires
            Self::params_ok(),
        ensures
            Self::modulus_spec() > 1,
            Self::modulus_spec() <= 0x1_0000_0000_0000_0000,
            Self::zero_spec().value() == 0,
            Self::one_spec().value() == 1,
    ;

    /// The modulus `q`, truncated to 64 bits (so `2^64` is returned as `0`).
    fn modulus() -> (m: u64)
        requires
            Self::params_ok(),
        ensures
            m as nat == Self::modulus_spec() % 0x1_0000_0000_0000_0000,
    ;

    /// The element `val mod q`.
    fn from_u64(val: u64) -> (r: Self)
        requires
            Self::params_ok(),
        ensures
            r.wf(),
            r.value() == (val as nat) % Self::modulus_spec(),
    ;

    /// The canonical value of the element.
    fn to_u64(&self) -> (r: u64)
        requires
            self.wf(),
            self.value() < 0x1_0000_0000_0000_0000,
        ensures
            r == self.value(),
    ;

    /// The canonical representation of the element (the element itself).
    fn reduce(&self) -> (r: Self)
        requires
            self.wf(),
        ensures
            r == *self,
    ;
}

/// A field `Z_q` with `q` prime: non-zero elements are invertible.
pub trait Field: IntegerRing {
    /// The modulus is prime, so every non-zero element has an inverse.
    spec fn is_field() -> bool;

    /// The multiplicative inverse of a non-zero element.
    fn inv(&self) -> (r: Self)
        requires
            self.wf(),
            *self != Self::zero_spec(),
        ensures
            r.wf(),
            Self::is_field() ==> Self::mul_spec(*self, r) == Self::one_spec(),
    ;

    /// `self / other = self * other^{-1}`.
    fn div(&self, other: &Self) -> (r: Self)
        requires
            self.wf(),
            other.wf(),
            *other != Self::zero_spec(),
        ensures
            r.wf(),
            Self::is_field() ==> Self::mul_spec(r, *other) == *self,
    {
        let inv = other.inv();
        let r = Self::mul_ref(self, &inv);
        proof {
            Self::lemma_wf_params(*self);
            Self::lemma_identities_wf();
            if Self::is_field() {
                Self::lemma_mul_laws(*self, inv, *other);
                Self::lemma_mul_laws(*other, inv, *other);
                Self::lemma_mul_laws(*self, Self::one_spec(), Self::one_spec());
            }
        }
        r
    }
}

} // verus!
