//! Canonical byte encodings of the word-sized integer rings.
//!
//! An element of `Z_q` is encoded as its canonical value in the fewest little-endian
//! bytes that hold `q - 1` (at least one byte); decoding rejects values `>= q`.
use crate::arith::gf2::GF2;
use crate::arith::limb::UintLimb;
use crate::arith::prime::{PrimeField, PrimeFieldLimb};
use crate::arith::ring::{IntegerRing, Ring};
use crate::arith::z2k::Z2K;
use crate::arith::zm::Zm;
use crate::serialize::{
    CanonicalDeserialize, CanonicalSerialize, SerializationError, byte_len, byte_pow, le_bytes_to_u64,
    le_encode, le_value, lemma_byte_len, lemma_byte_pow_mono, lemma_le_encode, lemma_le_encode_value,
    u64_to_le_bytes,
};
use vstd::prelude::*;

verus! {

/// The encoding width of `Z_q`: the bytes needed for `q - 1`, at least one.
pub open spec fn int_width<R: IntegerRing>() -> nat {
    let b = byte_len((R::modulus_spec() - 1) as nat);
    if b == 0 {
        1
    } else {
        b
    }
}

/// The encoding of an element: its value in `int_width` little-endian bytes.
pub open spec fn int_encoding<R: IntegerRing>(v: R) -> Seq<u8> {
    le_encode(v.value(), int_width::<R>())
}

/// `data` starts with the encoding of `v`: at least `int_width` bytes whose value is
/// below `q` and is the value of `v`.
pub open spec fn int_decodes<R: IntegerRing>(data: Seq<u8>, v: R, n: nat) -> bool {
    let w = int_width::<R>();
    &&& n == w
    &&& w <= data.len()
    &&& le_value(data.subrange(0, w as int)) < R::modulus_spec()
    &&& v.wf()
    &&& v.value() == le_value(data.subrange(0, w as int))
}

/// Width facts: at most eight bytes, and enough for every value below `q`.
proof fn lemma_int_width<R: IntegerRing>()
    requires
        R::params_ok(),
    ensures
        1 <= int_width::<R>() <= 8,
        R::modulus_spec() <= byte_pow(int_width::<R>()),
{
    R::lemma_identity_values();
    let m = (R::modulus_spec() - 1) as nat;
    lemma_byte_len(m);
    lemma_byte_pow_mono(byte_len(m), int_width::<R>());
    if int_width::<R>() > 8 {
        lemma_byte_pow_mono(8, (int_width::<R>() - 1) as nat);
        lemma_byte_len_mono(m);
    }
}

/// A value below `2^64` needs at most eight bytes.
proof fn lemma_byte_len_mono(m: nat)
    requires
        m < 0x1_0000_0000_0000_0000,
    ensures
        byte_len(m) <= 8,
{
    reveal_with_fuel(byte_len, 9);
    assert(m / 256 / 256 / 256 / 256 / 256 / 256 / 256 / 256 == 0);
}

/// The encoding width, computed from the modulus.
fn int_width_exec<R: IntegerRing>() -> (w: usize)
    requires
        R::params_ok(),
    ensures
        w == int_width::<R>(),
{
    proof {
        R::lemma_identity_values();
    }
    let modulus = R::modulus();
    let mut m: u64 = if modulus == 0 {
        u64::MAX
    } else {
        modulus - 1
    };
    let mut count: usize = 0;
    proof {
        lemma_byte_len_mono(m as nat);
    }
    while m > 0
        invariant
            count <= 8,
            count + byte_len(m as nat) == byte_len((R::modulus_spec() - 1) as nat),
            byte_len(m as nat) + count <= 8,
        decreases m,
    {
        proof {
            lemma_byte_len_mono(m as nat);
        }
        m = m / 256;
        count = count + 1;
    }
    if count == 0 {
        1
    } else {
        count
    }
}

/// Appends the encoding of `v` to `buf`.
fn int_serialize_into<R: IntegerRing>(v: &R, buf: &mut Vec<u8>)
    requires
        v.wf(),
    ensures
        final(buf)@ == old(buf)@ + int_encoding(*v),
{
    proof {
        R::lemma_wf_params(*v);
        R::lemma_value(*v, *v);
        R::lemma_identity_values();
        lemma_int_width::<R>();
    }
    let w = int_width_exec::<R>();
    let bytes = u64_to_le_bytes(v.to_u64(), w);
    let ghost start = buf@;
    let mut i: usize = 0;
    while i < bytes.len()
        invariant
            i <= bytes@.len(),
            buf@ == start + bytes@.subrange(0, i as int),
        decreases bytes@.len() - i,
    {
        buf.push(bytes[i]);
        i = i + 1;
        proof {
            assert(buf@ =~= start + bytes@.subrange(0, i as int));
        }
    }
    proof {
        assert(bytes@.subrange(0, bytes@.len() as int) =~= bytes@);
    }
}

/// Decodes one element from the front of `data`.
fn int_deserialize<R: IntegerRing>(data: &[u8]) -> (r: Result<(R, usize), SerializationError>)
    requires
        R::params_ok(),
    ensures
        r matches Ok((v, n)) ==> int_decodes(data@, v, n as nat),
        r is Err ==> forall|v: R, n: nat| !int_decodes(data@, v, n),
        r matches Err(e) ==> (e is UnexpectedEnd <==> data@.len() < int_width::<R>()),
{
    proof {
        R::lemma_identity_values();
        lemma_int_width::<R>();
    }
    let w = int_width_exec::<R>();
    if data.len() < w {
        return Err(SerializationError::UnexpectedEnd);
    }
    let val = le_bytes_to_u64(data, 0, w);
    let modulus = R::modulus();
    if modulus != 0 && val >= modulus {
        return Err(SerializationError::InvalidData("value is not below the modulus".to_owned()));
    }
    let v = R::from_u64(val);
    proof {
        vstd::arithmetic::div_mod::lemma_small_mod(val as nat, R::modulus_spec());
    }
    Ok((v, w))
}

/// Decodings are determined by the data.
proof fn lemma_int_unique<R: IntegerRing>(data: Seq<u8>, v1: R, n1: nat, v2: R, n2: nat)
    requires
        int_decodes(data, v1, n1),
        int_decodes(data, v2, n2),
    ensures
        v1 == v2,
        n1 == n2,
{
    R::lemma_value(v1, v2);
}

/// A decoding reads only its own bytes, and its value re-encodes to them.
proof fn lemma_int_prefix<R: IntegerRing>(data: Seq<u8>, v: R, n: nat, rest: Seq<u8>)
    requires
        int_decodes(data, v, n),
    ensures
        n <= data.len(),
        int_decodes(data.subrange(0, n as int) + rest, v, n),
        v.wf(),
        int_encoding(v) == data.subrange(0, n as int),
{
    let w = n as int;
    let d2 = data.subrange(0, w) + rest;
    assert(d2.subrange(0, w) =~= data.subrange(0, w));
    lemma_le_encode_value(data.subrange(0, w));
}

/// Decoding the encoding of a valid element, followed by any bytes, gives it back.
proof fn lemma_int_round_trip<R: IntegerRing>(v: R, rest: Seq<u8>)
    requires
        v.wf(),
    ensures
        int_decodes(int_encoding(v) + rest, v, int_encoding(v).len()),
{
    R::lemma_wf_params(v);
    R::lemma_value(v, v);
    lemma_int_width::<R>();
    let w = int_width::<R>();
    lemma_le_encode(v.value(), w);
    let d = int_encoding(v) + rest;
    assert(d.subrange(0, w as int) =~= int_encoding(v));
    vstd::arithmetic::div_mod::lemma_small_mod(v.value(), byte_pow(w));
}


impl CanonicalSerialize for GF2 {
    open spec fn encoding(&self) -> Seq<u8> {
        int_encoding(*self)
    }

    open spec fn can_encode(&self) -> bool {
        self.wf()
    }

    fn serialized_size(&self) -> (r: usize) {
        proof {
            <Self as Ring>::lemma_wf_params(*self);
            lemma_le_encode(<Self as IntegerRing>::value(*self), int_width::<Self>());
        }
        int_width_exec::<Self>()
    }

    fn serialize_into(&self, buf: &mut Vec<u8>) -> (r: Result<(), SerializationError>) {
        int_serialize_into(self, buf);
        Ok(())
    }
}

impl CanonicalDeserialize for GF2 {
    open spec fn decodes(data: Seq<u8>, v: Self, n: nat) -> bool {
        int_decodes(data, v, n)
    }

    open spec fn is_short(data: Seq<u8>) -> bool {
        data.len() < int_width::<Self>()
    }

    open spec fn decode_ready() -> bool {
        <Self as Ring>::params_ok()
    }

    proof fn lemma_decodes_unique(data: Seq<u8>, v1: Self, n1: nat, v2: Self, n2: nat) {
        lemma_int_unique(data, v1, n1, v2, n2);
    }

    proof fn lemma_decodes_not_short(data: Seq<u8>, v: Self, n: nat) {
    }

    proof fn lemma_decodes_prefix(data: Seq<u8>, v: Self, n: nat, rest: Seq<u8>) {
        lemma_int_prefix(data, v, n, rest);
    }

    proof fn lemma_round_trip(v: Self, rest: Seq<u8>) {
        lemma_int_round_trip(v, rest);
    }

    fn deserialize(data: &[u8]) -> (r: Result<(Self, usize), SerializationError>) {
        let r = int_deserialize::<Self>(data);
        proof {
            assert(r matches Err(e) ==> ((e is UnexpectedEnd) == (data@.len() < int_width::<Self>())));
            assert(Self::is_short(data@) == (data@.len() < int_width::<Self>()));
            assert(r matches Err(e) ==> (e is UnexpectedEnd <==> Self::is_short(data@)));
        }
        r
    }
}

impl<const M: u64, L: UintLimb> CanonicalSerialize for Zm<M, L> {
    open spec fn encoding(&self) -> Seq<u8> {
        int_encoding(*self)
    }

    open spec fn can_encode(&self) -> bool {
        self.wf()
    }

    fn serialized_size(&self) -> (r: usize) {
        proof {
            <Self as Ring>::lemma_wf_params(*self);
            lemma_le_encode(<Self as IntegerRing>::value(*self), int_width::<Self>());
        }
        int_width_exec::<Self>()
    }

    fn serialize_into(&self, buf: &mut Vec<u8>) -> (r: Result<(), SerializationError>) {
        int_serialize_into(self, buf);
        Ok(())
    }
}

impl<const M: u64, L: UintLimb> CanonicalDeserialize for Zm<M, L> {
    open spec fn decodes(data: Seq<u8>, v: Self, n: nat) -> bool {
        int_decodes(data, v, n)
    }

    open spec fn is_short(data: Seq<u8>) -> bool {
        data.len() < int_width::<Self>()
    }

    open spec fn decode_ready() -> bool {
        <Self as Ring>::params_ok()
    }

    proof fn lemma_decodes_unique(data: Seq<u8>, v1: Self, n1: nat, v2: Self, n2: nat) {
        lemma_int_unique(data, v1, n1, v2, n2);
    }

    proof fn lemma_decodes_not_short(data: Seq<u8>, v: Self, n: nat) {
    }

    proof fn lemma_decodes_prefix(data: Seq<u8>, v: Self, n: nat, rest: Seq<u8>) {
        lemma_int_prefix(data, v, n, rest);
    }

    proof fn lemma_round_trip(v: Self, rest: Seq<u8>) {
        lemma_int_round_trip(v, rest);
    }

    fn deserialize(data: &[u8]) -> (r: Result<(Self, usize), SerializationError>) {
        let r = int_deserialize::<Self>(data);
        proof {
            assert(r matches Err(e) ==> ((e is UnexpectedEnd) == (data@.len() < int_width::<Self>())));
            assert(Self::is_short(data@) == (data@.len() < int_width::<Self>()));
            assert(r matches Err(e) ==> (e is UnexpectedEnd <==> Self::is_short(data@)));
        }
        r
    }
}

impl<const Q: u64, L: PrimeFieldLimb> CanonicalSerialize for PrimeField<Q, L> {
    open spec fn encoding(&self) -> Seq<u8> {
        int_encoding(*self)
    }

    open spec fn can_encode(&self) -> bool {
        self.wf()
    }

    fn serialized_size(&self) -> (r: usize) {
        proof {
            <Self as Ring>::lemma_wf_params(*self);
            lemma_le_encode(<Self as IntegerRing>::value(*self), int_width::<Self>());
        }
        int_width_exec::<Self>()
    }

    fn serialize_into(&self, buf: &mut Vec<u8>) -> (r: Result<(), SerializationError>) {
        int_serialize_into(self, buf);
        Ok(())
    }
}

impl<const Q: u64, L: PrimeFieldLimb> CanonicalDeserialize for PrimeField<Q, L> {
    open spec fn decodes(data: Seq<u8>, v: Self, n: nat) -> bool {
        int_decodes(data, v, n)
    }

    open spec fn is_short(data: Seq<u8>) -> bool {
        data.len() < int_width::<Self>()
    }

    open spec fn decode_ready() -> bool {
        <Self as Ring>::params_ok()
    }

    proof fn lemma_decodes_unique(data: Seq<u8>, v1: Self, n1: nat, v2: Self, n2: nat) {
        lemma_int_unique(data, v1, n1, v2, n2);
    }

    proof fn lemma_decodes_not_short(data: Seq<u8>, v: Self, n: nat) {
    }

    proof fn lemma_decodes_prefix(data: Seq<u8>, v: Self, n: nat, rest: Seq<u8>) {
        lemma_int_prefix(data, v, n, rest);
    }

    proof fn lemma_round_trip(v: Self, rest: Seq<u8>) {
        lemma_int_round_trip(v, rest);
    }

    fn deserialize(data: &[u8]) -> (r: Result<(Self, usize), SerializationError>) {
        let r = int_deserialize::<Self>(data);
        proof {
            assert(r matches Err(e) ==> ((e is UnexpectedEnd) == (data@.len() < int_width::<Self>())));
            assert(Self::is_short(data@) == (data@.len() < int_width::<Self>()));
            assert(r matches Err(e) ==> (e is UnexpectedEnd <==> Self::is_short(data@)));
        }
        r
    }
}

impl<const K: u32> CanonicalSerialize for Z2K<K> {
    open spec fn encoding(&self) -> Seq<u8> {
        int_encoding(*self)
    }

    open spec fn can_encode(&self) -> bool {
        self.wf()
    }

    fn serialized_size(&self) -> (r: usize) {
        proof {
            <Self as Ring>::lemma_wf_params(*self);
            lemma_le_encode(<Self as IntegerRing>::value(*self), int_width::<Self>());
        }
        int_width_exec::<Self>()
    }

    fn serialize_into(&self, buf: &mut Vec<u8>) -> (r: Result<(), SerializationError>) {
        int_serialize_into(self, buf);
        Ok(())
    }
}

impl<const K: u32> CanonicalDeserialize for Z2K<K> {
    open spec fn decodes(data: Seq<u8>, v: Self, n: nat) -> bool {
        int_decodes(data, v, n)
    }

    open spec fn is_short(data: Seq<u8>) -> bool {
        data.len() < int_width::<Self>()
    }

    open spec fn decode_ready() -> bool {
        <Self as Ring>::params_ok()
    }

    proof fn lemma_decodes_unique(data: Seq<u8>, v1: Self, n1: nat, v2: Self, n2: nat) {
        lemma_int_unique(data, v1, n1, v2, n2);
    }

    proof fn lemma_decodes_not_short(data: Seq<u8>, v: Self, n: nat) {
    }

    proof fn lemma_decodes_prefix(data: Seq<u8>, v: Self, n: nat, rest: Seq<u8>) {
        lemma_int_prefix(data, v, n, rest);
    }

    proof fn lemma_round_trip(v: Self, rest: Seq<u8>) {
        lemma_int_round_trip(v, rest);
    }

    fn deserialize(data: &[u8]) -> (r: Result<(Self, usize), SerializationError>) {
        let r = int_deserialize::<Self>(data);
        proof {
            assert(r matches Err(e) ==> ((e is UnexpectedEnd) == (data@.len() < int_width::<Self>())));
            assert(Self::is_short(data@) == (data@.len() < int_width::<Self>()));
            assert(r matches Err(e) ==> (e is UnexpectedEnd <==> Self::is_short(data@)));
        }
        r
    }
}

} // verus!
