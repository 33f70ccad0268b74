//! Canonical little-endian byte encodings and their errors.
//!
//! Every type encodes a canonical value as a fixed number of little-endian
//! bytes; decoding reads exactly that many bytes and rejects values outside
//! the type's range.
use vstd::prelude::*;

verus! {

/// Errors raised while decoding canonical bytes.
#[derive(Clone, Debug, PartialEq, Eq)]
pub enum SerializationError {
    /// The input ended before a complete value was read.
    UnexpectedEnd,
    /// The bytes do not encode a valid value.
    InvalidData(String),
}

/// The integer denoted by little-endian bytes.
pub open spec fn le_value(s: Seq<u8>) -> nat
    decreases s.len(),
{
    if s.len() == 0 {
        0
    } else {
        (s[0] as nat) + 256 * le_value(s.skip(1))
    }
}

/// `256^n`, one more than the largest value of `n` bytes.
pub open spec fn byte_pow(n: nat) -> nat
    decreases n,
{
    if n == 0 {
        1
    } else {
        256 * byte_pow((n - 1) as nat)
    }
}

/// A value of `n` bytes is below `256^n`.
pub proof fn lemma_le_value_bound(s: Seq<u8>)
    ensures
        le_value(s) < byte_pow(s.len()),
    decreases s.len(),
{
    if s.len() > 0 {
        lemma_le_value_bound(s.skip(1));
    }
}

/// The first `n` little-endian bytes of `x`.
pub fn u64_to_le_bytes(x: u64, n: usize) -> (r: Vec<u8>)
    requires
        n <= 8,
    ensures
        r@ == le_encode(x as nat, n as nat),
        r@.len() == n,
        le_value(r@) == (x as nat) % byte_pow(n as nat),
    decreases n,
{
    if n == 0 {
        return Vec::new();
    }
    let low = (x % 256) as u8;
    let rest = u64_to_le_bytes(x / 256, n - 1);
    let mut out: Vec<u8> = Vec::new();
    out.push(low);
    let mut i: usize = 0;
    while i < rest.len()
        invariant
            i <= rest@.len(),
            out@.len() == i + 1,
            out@[0] == low,
            forall|k: int| 0 <= k < i ==> out@[k + 1] == rest@[k],
        decreases rest@.len() - i,
    {
        out.push(rest[i]);
        i = i + 1;
    }
    proof {
        assert(out@.skip(1) =~= rest@);
        lemma_le_value_bound(rest@);
        let p = byte_pow((n - 1) as nat);
        let q = (x as nat) / 256;
        vstd::arithmetic::div_mod::lemma_fundamental_div_mod(q as int, p as int);
        vstd::arithmetic::div_mod::lemma_fundamental_div_mod(x as int, 256);
        vstd::arithmetic::div_mod::lemma_mod_bound(q as int, p as int);
        let r = q % p;
        let t = q / p;
        assert(x == (x % 256) + 256 * (r + p * t)) by (nonlinear_arith)
            requires
                x == 256 * q + x % 256,
                q == p * t + r,
        ;
        assert(x == ((x % 256) + 256 * r) + (256 * p) * t) by (nonlinear_arith)
            requires
                x == (x % 256) + 256 * (r + p * t),
        ;
        assert((x % 256) + 256 * r < 256 * p) by (nonlinear_arith)
            requires
                x % 256 < 256,
                r < p,
        ;
        vstd::arithmetic::div_mod::lemma_fundamental_div_mod_converse(
            x as int,
            (256 * p) as int,
            t as int,
            ((x % 256) + 256 * r) as int,
        );
    }
    proof {
        assert(out@ =~= seq![(x as nat % 256) as u8] + rest@);
    }
    out
}

/// The little-endian value of `bytes[start..start + n]`.
pub fn le_bytes_to_u64(bytes: &[u8], start: usize, n: usize) -> (r: u64)
    requires
        n <= 8,
        start + n <= bytes@.len(),
    ensures
        r as nat == le_value(bytes@.subrange(start as int, start + n)),
    decreases n,
{
    if n == 0 {
        return 0;
    }
    let len = bytes.len();
    assert(start + 1 <= len);
    let rest = le_bytes_to_u64(bytes, start + 1, n - 1);
    proof {
        let s = bytes@.subrange(start as int, start + n);
        assert(s.skip(1) =~= bytes@.subrange(start + 1, start + 1 + (n - 1)));
        lemma_le_value_bound(bytes@.subrange(start + 1, start + 1 + (n - 1)));
        lemma_byte_pow_7((n - 1) as nat);
        assert(rest * 256 + 255 < 0x1_0000_0000_0000_0000) by (nonlinear_arith)
            requires
                rest < byte_pow((n - 1) as nat),
                byte_pow((n - 1) as nat) <= 0x100_0000_0000_0000,
        ;
    }
    (bytes[start] as u64) + 256 * rest
}

/// `256^n <= 2^56` for `n <= 7`.
proof fn lemma_byte_pow_7(n: nat)
    requires
        n <= 7,
    ensures
        byte_pow(n) <= 0x100_0000_0000_0000,
    decreases n,
{
    if n > 0 {
        lemma_byte_pow_7((n - 1) as nat);
        assert(byte_pow((n - 1) as nat) <= byte_pow(6)) by {
            lemma_byte_pow_mono((n - 1) as nat, 6);
        }
        reveal_with_fuel(byte_pow, 7);
    }
}

/// `byte_pow` is monotone.
pub proof fn lemma_byte_pow_mono(i: nat, j: nat)
    requires
        i <= j,
    ensures
        1 <= byte_pow(i) <= byte_pow(j),
    decreases j,
{
    if j > 0 {
        if i < j {
            lemma_byte_pow_mono(i, (j - 1) as nat);
        } else {
            lemma_byte_pow_mono(0, (j - 1) as nat);
        }
    }
}


/// The `n` little-endian bytes of `x mod 256^n`.
pub open spec fn le_encode(x: nat, n: nat) -> Seq<u8>
    decreases n,
{
    if n == 0 {
        Seq::empty()
    } else {
        seq![(x % 256) as u8] + le_encode(x / 256, (n - 1) as nat)
    }
}

/// `le_encode(x, n)` has `n` bytes and denotes `x mod 256^n`.
pub proof fn lemma_le_encode(x: nat, n: nat)
    ensures
        le_encode(x, n).len() == n,
        le_value(le_encode(x, n)) == x % byte_pow(n),
    decreases n,
{
    if n == 0 {
        vstd::arithmetic::div_mod::lemma_mod_self_0(1);
        assert(x % 1 == 0);
    } else {
        let n1 = (n - 1) as nat;
        lemma_le_encode(x / 256, n1);
        let e = le_encode(x, n);
        assert(e.skip(1) =~= le_encode(x / 256, n1));
        let p = byte_pow(n1);
        lemma_byte_pow_mono(0, n1);
        let q = x / 256;
        vstd::arithmetic::div_mod::lemma_fundamental_div_mod(q as int, p as int);
        vstd::arithmetic::div_mod::lemma_fundamental_div_mod(x as int, 256);
        vstd::arithmetic::div_mod::lemma_mod_bound(q as int, p as int);
        let r = q % p;
        let t = q / p;
        assert(x == ((x % 256) + 256 * r) + (256 * p) * t) by (nonlinear_arith)
            requires
                x == 256 * q + x % 256,
                q == p * t + r,
        ;
        assert((x % 256) + 256 * r < 256 * p) by (nonlinear_arith)
            requires
                x % 256 < 256,
                r < p,
        ;
        vstd::arithmetic::div_mod::lemma_fundamental_div_mod_converse(
            x as int,
            (256 * p) as int,
            t as int,
            ((x % 256) + 256 * r) as int,
        );
    }
}

/// The number of bytes needed for `m` (zero for `m = 0`).
pub open spec fn byte_len(m: nat) -> nat
    decreases m,
{
    if m == 0 {
        0
    } else {
        1 + byte_len(m / 256)
    }
}

/// `m` fits in `byte_len(m)` bytes.
pub proof fn lemma_byte_len(m: nat)
    ensures
        m < byte_pow(byte_len(m)),
    decreases m,
{
    if m > 0 {
        lemma_byte_len(m / 256);
    }
}

/// A type with a canonical byte encoding.
pub trait CanonicalSerialize {
    /// The canonical bytes of the value.
    spec fn encoding(&self) -> Seq<u8>;

    /// The value is in a state that can be encoded (a valid element).
    spec fn can_encode(&self) -> bool;

    /// The length of the encoding.
    fn serialized_size(&self) -> (r: usize)
        requires
            self.can_encode(),
        ensures
            r == self.encoding().len(),
    ;

    /// Appends the encoding to `buf`.
    fn serialize_into(&self, buf: &mut Vec<u8>) -> (r: Result<(), SerializationError>)
        requires
            self.can_encode(),
        ensures
            r is Ok,
            final(buf)@ == old(buf)@ + self.encoding(),
    ;

    /// The encoding in a new buffer.
    fn serialize(&self) -> (r: Result<Vec<u8>, SerializationError>)
        requires
            self.can_encode(),
        ensures
            r matches Ok(v) && v@ == self.encoding(),
    {
        let mut buf: Vec<u8> = Vec::new();
        match self.serialize_into(&mut buf) {
            Ok(_) => {
                assert(buf@ =~= self.encoding());
                Ok(buf)
            },
            Err(e) => Err(e),
        }
    }
}

/// A type that decodes its canonical byte encoding.
pub trait CanonicalDeserialize: CanonicalSerialize + Sized {
    /// `data` starts with the encoding of `v`, which is `n` bytes long.
    spec fn decodes(data: Seq<u8>, v: Self, n: nat) -> bool;

    /// `data` ends before a complete value.
    spec fn is_short(data: Seq<u8>) -> bool;

    /// The type's own parameters allow decoding.
    spec fn decode_ready() -> bool;

    /// The length of a decoding is determined by the data.
    proof fn lemma_decodes_unique(data: Seq<u8>, v1: Self, n1: nat, v2: Self, n2: nat)
        requires
            Self::decodes(data, v1, n1),
            Self::decodes(data, v2, n2),
        ensures
            n1 == n2,
    ;

    /// Data that decodes is not short.
    proof fn lemma_decodes_not_short(data: Seq<u8>, v: Self, n: nat)
        requires
            Self::decodes(data, v, n),
        ensures
            !Self::is_short(data),
    ;

    /// A decoding reads only its own `n` bytes, and the decoded value can be encoded.
    proof fn lemma_decodes_prefix(data: Seq<u8>, v: Self, n: nat, rest: Seq<u8>)
        requires
            Self::decodes(data, v, n),
        ensures
            n <= data.len(),
            Self::decodes(data.subrange(0, n as int) + rest, v, n),
            v.can_encode(),
            v.encoding() == data.subrange(0, n as int),
    ;

    /// Decoding an encoding, followed by any bytes, gives back the value.
    proof fn lemma_round_trip(v: Self, rest: Seq<u8>)
        requires
            v.can_encode(),
        ensures
            Self::decodes(v.encoding() + rest, v, v.encoding().len()),
    ;

    /// Decodes one value from the front of `data`, returning it and the number of
    /// bytes read.
    fn deserialize(data: &[u8]) -> (r: Result<(Self, usize), SerializationError>)
        requires
            Self::decode_ready(),
        ensures
            r matches Ok((v, n)) ==> Self::decodes(data@, v, n as nat),
            r is Err ==> forall|v: Self, n: nat| !Self::decodes(data@, v, n),
            r matches Err(e) ==> (e is UnexpectedEnd <==> Self::is_short(data@)),
    ;

    /// Decodes a value that must use all of `data`.
    fn deserialize_exact(data: &[u8]) -> (r: Result<Self, SerializationError>)
        requires
            Self::decode_ready(),
        ensures
            r matches Ok(v) ==> Self::decodes(data@, v, data@.len()),
            r is Err ==> forall|v: Self| !Self::decodes(data@, v, data@.len()),
    {
        match Self::deserialize(data) {
            Ok((value, consumed)) => {
                if consumed == data.len() {
                    Ok(value)
                } else {
                    proof {
                        assert forall|v: Self| !Self::decodes(data@, v, data@.len()) by {
                            if Self::decodes(data@, v, data@.len()) {
                                Self::lemma_decodes_unique(data@, value, consumed as nat, v, data@.len());
                            }
                        }
                    }
                    Err(SerializationError::InvalidData("trailing bytes after deserialized value".to_owned()))
                }
            },
            Err(e) => Err(e),
        }
    }
}


/// Re-encoding the value of `n` bytes gives back the same bytes.
pub proof fn lemma_le_encode_value(s: Seq<u8>)
    ensures
        le_encode(le_value(s), s.len()) == s,
    decreases s.len(),
{
    if s.len() > 0 {
        let t = s.skip(1);
        lemma_le_encode_value(t);
        let x = le_value(s);
        assert(x == s[0] as nat + 256 * le_value(t));
        assert(x % 256 == s[0] as nat && x / 256 == le_value(t)) by {
            vstd::arithmetic::div_mod::lemma_fundamental_div_mod_converse(
                x as int,
                256,
                le_value(t) as int,
                s[0] as int,
            );
        }
        assert(le_encode(x, s.len()) =~= s);
    }
}


/// The concatenated encodings of `s`.
pub open spec fn concat_encodings<R: CanonicalSerialize>(s: Seq<R>) -> Seq<u8>
    decreases s.len(),
{
    if s.len() == 0 {
        Seq::empty()
    } else {
        s[0].encoding() + concat_encodings(s.skip(1))
    }
}

/// Every element of `s` can be encoded.
pub open spec fn all_can_encode<R: CanonicalSerialize>(s: Seq<R>) -> bool {
    forall|i: int| 0 <= i < s.len() ==> (#[trigger] s[i]).can_encode()
}

/// `d` starts with the encodings of the elements of `s`, one after the other, which
/// take `n` bytes together.
pub open spec fn decodes_seq<R: CanonicalDeserialize>(d: Seq<u8>, s: Seq<R>, n: nat) -> bool
    decreases s.len(),
{
    if s.len() == 0 {
        n == 0
    } else {
        exists|m: nat|
            m <= n && #[trigger] R::decodes(d, s[0], m) && decodes_seq(d.skip(m as int), s.skip(1), (n - m) as nat)
    }
}

/// Decoding `count` elements from `d` stops at an element whose data is short.
pub open spec fn short_seq<R: CanonicalDeserialize>(d: Seq<u8>, count: nat) -> bool {
    exists|s: Seq<R>, a: nat|
        s.len() < count && #[trigger] decodes_seq(d, s, a) && R::is_short(d.skip(a as int))
}

/// Skipping twice is skipping the sum.
proof fn lemma_skip_skip<T>(d: Seq<T>, a: nat, b: nat)
    requires
        a + b <= d.len(),
    ensures
        d.skip(a as int).skip(b as int) == d.skip((a + b) as int),
{
    assert(d.skip(a as int).skip(b as int) =~= d.skip((a + b) as int));
}

/// A sequence decoding reads at most the data.
proof fn lemma_seq_bound<R: CanonicalDeserialize>(d: Seq<u8>, s: Seq<R>, n: nat)
    requires
        decodes_seq(d, s, n),
    ensures
        n <= d.len(),
    decreases s.len(),
{
    if s.len() > 0 {
        let m = choose|m: nat|
            m <= n && #[trigger] R::decodes(d, s[0], m) && decodes_seq(d.skip(m as int), s.skip(1), (n - m) as nat);
        R::lemma_decodes_prefix(d, s[0], m, Seq::empty());
        lemma_seq_bound(d.skip(m as int), s.skip(1), (n - m) as nat);
    }
}

/// Appending one decoded element extends a sequence decoding.
pub proof fn lemma_seq_append<R: CanonicalDeserialize>(d: Seq<u8>, s: Seq<R>, a: nat, e: R, m: nat)
    requires
        decodes_seq(d, s, a),
        a <= d.len(),
        R::decodes(d.skip(a as int), e, m),
    ensures
        decodes_seq(d, s.push(e), a + m),
    decreases s.len(),
{
    if s.len() == 0 {
        assert(d.skip(0) =~= d);
        assert(s.push(e).skip(1) =~= Seq::<R>::empty());
        assert(s.push(e)[0] == e);
        assert(decodes_seq(d.skip(m as int), Seq::<R>::empty(), 0));
    } else {
        let m0 = choose|m0: nat|
            m0 <= a && #[trigger] R::decodes(d, s[0], m0) && decodes_seq(d.skip(m0 as int), s.skip(1), (a - m0) as nat);
        lemma_skip_skip(d, m0, (a - m0) as nat);
        lemma_seq_append(d.skip(m0 as int), s.skip(1), (a - m0) as nat, e, m);
        assert(s.push(e).skip(1) =~= s.skip(1).push(e));
        assert(s.push(e)[0] == s[0]);
        assert(((a + m) - m0) as nat == ((a - m0) as nat + m) as nat);
    }
}

/// Two sequence decodings of the same length end at the same offset.
pub proof fn lemma_seq_offset_unique<R: CanonicalDeserialize>(d: Seq<u8>, s1: Seq<R>, a1: nat, s2: Seq<R>, a2: nat)
    requires
        decodes_seq(d, s1, a1),
        decodes_seq(d, s2, a2),
        s1.len() == s2.len(),
    ensures
        a1 == a2,
    decreases s1.len(),
{
    if s1.len() > 0 {
        let m1 = choose|m: nat|
            m <= a1 && #[trigger] R::decodes(d, s1[0], m) && decodes_seq(d.skip(m as int), s1.skip(1), (a1 - m) as nat);
        let m2 = choose|m: nat|
            m <= a2 && #[trigger] R::decodes(d, s2[0], m) && decodes_seq(d.skip(m as int), s2.skip(1), (a2 - m) as nat);
        R::lemma_decodes_unique(d, s1[0], m1, s2[0], m2);
        lemma_seq_offset_unique(d.skip(m1 as int), s1.skip(1), (a1 - m1) as nat, s2.skip(1), (a2 - m2) as nat);
    }
}

/// A sequence decoding splits after its first `k` elements.
pub proof fn lemma_seq_split<R: CanonicalDeserialize>(d: Seq<u8>, s: Seq<R>, n: nat, k: nat) -> (a: nat)
    requires
        decodes_seq(d, s, n),
        k <= s.len(),
    ensures
        a <= n,
        decodes_seq(d, s.take(k as int), a),
        decodes_seq(d.skip(a as int), s.skip(k as int), (n - a) as nat),
    decreases k,
{
    if k == 0 {
        assert(s.take(0) =~= Seq::<R>::empty());
        assert(s.skip(0) =~= s);
        assert(d.skip(0) =~= d);
        0
    } else {
        let m = choose|m: nat|
            m <= n && #[trigger] R::decodes(d, s[0], m) && decodes_seq(d.skip(m as int), s.skip(1), (n - m) as nat);
        let b = lemma_seq_split(d.skip(m as int), s.skip(1), (n - m) as nat, (k - 1) as nat);
        lemma_seq_bound(d, s, n);
        lemma_skip_skip(d, m, b);
        assert(s.take(k as int).skip(1) =~= s.skip(1).take((k - 1) as int));
        assert(s.take(k as int)[0] == s[0]);
        assert(s.skip(1).skip((k - 1) as int) =~= s.skip(k as int));
        assert(decodes_seq(d, s.take(k as int), m + b));
        m + b
    }
}

/// Decoding the concatenated encodings of encodable elements, followed by any bytes,
/// gives them back.
pub proof fn lemma_seq_round_trip<R: CanonicalDeserialize>(s: Seq<R>, rest: Seq<u8>)
    requires
        all_can_encode(s),
    ensures
        decodes_seq(concat_encodings(s) + rest, s, concat_encodings(s).len()),
    decreases s.len(),
{
    if s.len() > 0 {
        let tail = s.skip(1);
        assert(all_can_encode(tail)) by {
            assert forall|i: int| 0 <= i < tail.len() implies (#[trigger] tail[i]).can_encode() by {
                assert(tail[i] == s[i + 1]);
            }
        }
        lemma_seq_round_trip(tail, rest);
        let e = s[0].encoding();
        let d = concat_encodings(s) + rest;
        assert(d =~= e + (concat_encodings(tail) + rest));
        R::lemma_round_trip(s[0], concat_encodings(tail) + rest);
        assert(d.skip(e.len() as int) =~= concat_encodings(tail) + rest);
        assert(R::decodes(d, s[0], e.len()));
    }
}

/// A sequence decoding reads only its own bytes, which are the concatenated encodings
/// of its (encodable) elements.
pub proof fn lemma_seq_prefix<R: CanonicalDeserialize>(d: Seq<u8>, s: Seq<R>, n: nat, rest: Seq<u8>)
    requires
        decodes_seq(d, s, n),
    ensures
        n <= d.len(),
        all_can_encode(s),
        concat_encodings(s) == d.subrange(0, n as int),
        decodes_seq(d.subrange(0, n as int) + rest, s, n),
    decreases s.len(),
{
    lemma_seq_bound(d, s, n);
    if s.len() == 0 {
        assert(d.subrange(0, 0) =~= Seq::<u8>::empty());
    } else {
        let m = choose|m: nat|
            m <= n && #[trigger] R::decodes(d, s[0], m) && decodes_seq(d.skip(m as int), s.skip(1), (n - m) as nat);
        let tail = s.skip(1);
        lemma_seq_prefix(d.skip(m as int), tail, (n - m) as nat, rest);
        R::lemma_decodes_prefix(d, s[0], m, d.subrange(m as int, n as int) + rest);
        assert(all_can_encode(s)) by {
            assert forall|i: int| 0 <= i < s.len() implies (#[trigger] s[i]).can_encode() by {
                if i > 0 {
                    assert(s[i] == tail[i - 1]);
                }
            }
        }
        assert(d.skip(m as int).subrange(0, (n - m) as int) =~= d.subrange(m as int, n as int));
        assert(concat_encodings(s) =~= d.subrange(0, n as int));
        let d2 = d.subrange(0, n as int) + rest;
        assert(d.subrange(0, m as int) + (d.subrange(m as int, n as int) + rest) =~= d2);
        assert(d2.skip(m as int) =~= d.skip(m as int).subrange(0, (n - m) as int) + rest);
        assert(R::decodes(d2, s[0], m));
    }
}


/// When decoding stops at element `E.len()` of `count`, no `count` elements decode,
/// and the data is short exactly when the failing element's data is short.
pub proof fn lemma_seq_fail<R: CanonicalDeserialize>(d: Seq<u8>, e: Seq<R>, c: nat, count: nat)
    requires
        decodes_seq(d, e, c),
        e.len() < count,
        forall|v: R, n: nat| !R::decodes(d.skip(c as int), v, n),
    ensures
        forall|s: Seq<R>, n: nat| s.len() == count ==> !#[trigger] decodes_seq(d, s, n),
        short_seq::<R>(d, count) <==> R::is_short(d.skip(c as int)),
{
    let k = e.len();
    assert forall|s: Seq<R>, n: nat| s.len() == count implies !#[trigger] decodes_seq(d, s, n) by {
        if decodes_seq(d, s, n) {
            let a = lemma_seq_split(d, s, n, k);
            lemma_seq_offset_unique(d, s.take(k as int), a, e, c);
            let tail = s.skip(k as int);
            let m = choose|m: nat|
                m <= (n - a) as nat && #[trigger] R::decodes(d.skip(a as int), tail[0], m) && decodes_seq(
                    d.skip(a as int).skip(m as int),
                    tail.skip(1),
                    ((n - a) as nat - m) as nat,
                );
            assert(R::decodes(d.skip(c as int), tail[0], m));
        }
    }
    if short_seq::<R>(d, count) {
        let (s2, a2) = choose|s2: Seq<R>, a2: nat|
            s2.len() < count && #[trigger] decodes_seq(d, s2, a2) && R::is_short(d.skip(a2 as int));
        if s2.len() < k {
            let a = lemma_seq_split(d, e, c, s2.len());
            lemma_seq_offset_unique(d, e.take(s2.len() as int), a, s2, a2);
            let tail = e.skip(s2.len() as int);
            let m = choose|m: nat|
                m <= (c - a) as nat && #[trigger] R::decodes(d.skip(a as int), tail[0], m) && decodes_seq(
                    d.skip(a as int).skip(m as int),
                    tail.skip(1),
                    ((c - a) as nat - m) as nat,
                );
            R::lemma_decodes_not_short(d.skip(a as int), tail[0], m);
        } else if s2.len() > k {
            let a = lemma_seq_split(d, s2, a2, k);
            lemma_seq_offset_unique(d, s2.take(k as int), a, e, c);
            let tail = s2.skip(k as int);
            let m = choose|m: nat|
                m <= (a2 - a) as nat && #[trigger] R::decodes(d.skip(a as int), tail[0], m) && decodes_seq(
                    d.skip(a as int).skip(m as int),
                    tail.skip(1),
                    ((a2 - a) as nat - m) as nat,
                );
            assert(R::decodes(d.skip(c as int), tail[0], m));
        } else {
            lemma_seq_offset_unique(d, s2, a2, e, c);
        }
    }
    if R::is_short(d.skip(c as int)) {
        assert(decodes_seq(d, e, c));
    }
}

/// Appending encodings one element at a time builds the concatenation.
pub proof fn lemma_concat_take<R: CanonicalSerialize>(s: Seq<R>, i: nat)
    requires
        i < s.len(),
    ensures
        concat_encodings(s.take((i + 1) as int)) == concat_encodings(s.take(i as int)) + s[i as int].encoding(),
    decreases i,
{
    if i == 0 {
        assert(s.take(1).skip(1) =~= Seq::<R>::empty());
        assert(s.take(0) =~= Seq::<R>::empty());
        assert(s.take(1)[0] == s[0]);
        assert(concat_encodings(Seq::<R>::empty()) == Seq::<u8>::empty());
        assert(concat_encodings(s.take(1)) =~= s[0].encoding());
        assert(concat_encodings(s.take(0)) + s[0].encoding() =~= s[0].encoding());
    } else {
        let t = s.skip(1);
        lemma_concat_take(t, (i - 1) as nat);
        assert(s.take((i + 1) as int).skip(1) =~= t.take(i as int));
        assert(s.take(i as int).skip(1) =~= t.take((i - 1) as int));
        assert(s.take((i + 1) as int)[0] == s[0]);
        assert(s.take(i as int)[0] == s[0]);
        assert(t[(i - 1) as int] == s[i as int]);
        assert(((i - 1) as nat + 1) as int == i as int);
        assert(concat_encodings(s.take((i + 1) as int)) =~= concat_encodings(s.take(i as int)) + s[i as int].encoding());
    }
}

/// Appends the encodings of `entries`, in order, to `buf`.
pub fn serialize_entries<R: CanonicalSerialize>(entries: &[R], buf: &mut Vec<u8>)
    requires
        all_can_encode(entries@),
    ensures
        final(buf)@ == old(buf)@ + concat_encodings(entries@),
{
    let ghost start = buf@;
    let mut i: usize = 0;
    proof {
        assert(entries@.take(0) =~= Seq::<R>::empty());
        assert(buf@ =~= start + concat_encodings(entries@.take(0)));
    }
    while i < entries.len()
        invariant
            all_can_encode(entries@),
            i <= entries@.len(),
            buf@ == start + concat_encodings(entries@.take(i as int)),
        decreases entries@.len() - i,
    {
        proof {
            lemma_concat_take(entries@, i as nat);
        }
        let r = entries[i].serialize_into(buf);
        proof {
            assert(buf@ =~= start + concat_encodings(entries@.take((i + 1) as int)));
        }
        i = i + 1;
    }
    proof {
        assert(entries@.take(entries@.len() as int) =~= entries@);
    }
}

/// Decodes `count` elements, one after the other, from `data[start..]`.
pub fn deserialize_entries<R: CanonicalDeserialize>(data: &[u8], start: usize, count: usize) -> (r: Result<(Vec<R>, usize), SerializationError>)
    requires
        R::decode_ready(),
        start <= data@.len(),
    ensures
        r matches Ok((v, n)) ==> start <= n && v@.len() == count && decodes_seq(data@.skip(start as int), v@, (n - start) as nat),
        r is Err ==> forall|s: Seq<R>, n: nat| s.len() == count ==> !#[trigger] decodes_seq(data@.skip(start as int), s, n),
        r matches Err(e) ==> (e is UnexpectedEnd <==> short_seq::<R>(data@.skip(start as int), count as nat)),
{
    let ghost d = data@.skip(start as int);
    let total = data.len();
    let mut entries: Vec<R> = Vec::new();
    let mut consumed: usize = start;
    let mut k: usize = 0;
    while k < count
        invariant
            R::decode_ready(),
            total == data@.len(),
            d == data@.skip(start as int),
            start <= consumed <= data@.len(),
            k <= count,
            entries@.len() == k,
            decodes_seq(d, entries@, (consumed - start) as nat),
        decreases count - k,
    {
        let (_, rest) = data.split_at(consumed);
        proof {
            lemma_skip_skip(data@, start as nat, (consumed - start) as nat);
            assert(rest@ =~= d.skip((consumed - start) as int));
        }
        match R::deserialize(rest) {
            Ok((e, used)) => {
                proof {
                    assert(R::decodes(rest@, e, used as nat));
                    R::lemma_decodes_prefix(rest@, e, used as nat, Seq::empty());
                    assert(used as nat <= rest@.len());
                    assert(rest@.len() == data@.len() - consumed);
                    lemma_seq_append(d, entries@, (consumed - start) as nat, e, used as nat);
                }
                entries.push(e);
                consumed = consumed + used;
            },
            Err(err) => {
                proof {
                    lemma_seq_fail(d, entries@, (consumed - start) as nat, count as nat);
                }
                return Err(err);
            },
        }
        k = k + 1;
    }
    Ok((entries, consumed))
}


/// Data holding a full sequence decoding is not short for that many elements.
pub proof fn lemma_seq_not_short<R: CanonicalDeserialize>(d: Seq<u8>, s: Seq<R>, n: nat)
    requires
        decodes_seq(d, s, n),
    ensures
        !short_seq::<R>(d, s.len()),
{
    if short_seq::<R>(d, s.len()) {
        let (s2, a2) = choose|s2: Seq<R>, a2: nat|
            s2.len() < s.len() && #[trigger] decodes_seq(d, s2, a2) && R::is_short(d.skip(a2 as int));
        let a = lemma_seq_split(d, s, n, s2.len());
        lemma_seq_offset_unique(d, s.take(s2.len() as int), a, s2, a2);
        let tail = s.skip(s2.len() as int);
        let m = choose|m: nat|
            m <= (n - a) as nat && #[trigger] R::decodes(d.skip(a as int), tail[0], m) && decodes_seq(
                d.skip(a as int).skip(m as int),
                tail.skip(1),
                ((n - a) as nat - m) as nat,
            );
        R::lemma_decodes_not_short(d.skip(a as int), tail[0], m);
    }
}

/// The encodings of a prefix are no longer than those of the whole sequence.
pub proof fn lemma_concat_take_le<R: CanonicalSerialize>(s: Seq<R>, i: nat)
    requires
        i <= s.len(),
    ensures
        concat_encodings(s.take(i as int)).len() <= concat_encodings(s).len(),
    decreases s.len() - i,
{
    if i < s.len() {
        lemma_concat_take(s, i);
        lemma_concat_take_le(s, i + 1);
    } else {
        assert(s.take(i as int) =~= s);
    }
}

/// Appends `bytes` to `buf`.
pub fn append_bytes(buf: &mut Vec<u8>, bytes: &[u8])
    ensures
        final(buf)@ == old(buf)@ + bytes@,
{
    let ghost start = buf@;
    let mut i: usize = 0;
    while i < bytes.len()
        invariant
            i <= bytes@.len(),
            buf@ == start + bytes@.subrange(0, i as int),
        decreases bytes@.len() - i,
    {
        buf.push(bytes[i]);
        i = i + 1;
        proof {
            assert(buf@ =~= start + bytes@.subrange(0, i as int));
        }
    }
    proof {
        assert(bytes@.subrange(0, bytes@.len() as int) =~= bytes@);
    }
}

/// The value of a concatenation: the low part plus the high part shifted by the low
/// part's width.
pub proof fn lemma_le_value_concat(a: Seq<u8>, b: Seq<u8>)
    ensures
        le_value(a + b) == le_value(a) + byte_pow(a.len()) * le_value(b),
    decreases a.len(),
{
    if a.len() == 0 {
        assert(a + b =~= b);
        assert(byte_pow(0) == 1);
        assert(1 * le_value(b) == le_value(b));
    } else {
        lemma_le_value_concat(a.skip(1), b);
        assert((a + b).skip(1) =~= a.skip(1) + b);
        assert((a + b)[0] == a[0]);
        let p = byte_pow((a.len() - 1) as nat);
        assert(byte_pow(a.len()) == 256 * p);
        assert(le_value(a + b) == a[0] as nat + 256 * le_value(a.skip(1) + b));
        assert(256 * (le_value(a.skip(1)) + p * le_value(b)) == 256 * le_value(a.skip(1)) + (256 * p) * le_value(b)) by (nonlinear_arith);
    }
}

/// Encoding in `a + b` bytes is encoding the low `a` bytes, then the rest.
pub proof fn lemma_le_encode_concat(x: nat, a: nat, b: nat)
    ensures
        le_encode(x, a + b) == le_encode(x, a) + le_encode(x / byte_pow(a), b),
    decreases a,
{
    if a == 0 {
        assert(le_encode(x, 0) + le_encode(x / 1, b) =~= le_encode(x, b));
    } else {
        lemma_le_encode_concat(x / 256, (a - 1) as nat, b);
        lemma_byte_pow_mono(0, (a - 1) as nat);
        vstd::arithmetic::div_mod::lemma_div_denominator(x as int, 256, byte_pow((a - 1) as nat) as int);
        assert(((a + b) - 1) as nat == ((a - 1) as nat + b) as nat);
        assert(le_encode(x, a + b) =~= le_encode(x, a) + le_encode(x / byte_pow(a), b));
    }
}

} // verus!
