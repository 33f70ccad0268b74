use grid_algebra::arith::composite::CompositeRing;
use grid_algebra::arith::rns::RnsBasis;
use grid_algebra::arith::{GF2, IntegerRing, PrimeField, Z2K, Zm};
use grid_algebra::lattice::{NormBound, RingMat, RingVec};
use grid_algebra::serialize::{CanonicalDeserialize, CanonicalSerialize, SerializationError};
use std::sync::Arc;

type F17 = PrimeField<17>;
type Z16 = Z2K<4>;
type Z257 = Zm<257>;
type Z274177 = Zm<274177>;

#[test]
fn serialize_roundtrip() {
    let val = GF2::from_u64(1);
    let bytes = val.serialize().unwrap();
    assert_eq!(bytes.len(), 1);
    assert_eq!(bytes[0], 1);
    let decoded = GF2::deserialize_exact(&bytes).unwrap();
    assert_eq!(decoded, val);
}

#[test]
fn serialize_zero() {
    let bytes = GF2::from_u64(0).serialize().unwrap();
    assert_eq!(bytes, vec![0]);
}

#[test]
fn deserialize_rejects_non_canonical() {
    // byte values > 1 are rejected
    for v in [2u8, 3, 255] {
        let bytes = vec![v];
        assert!(
            GF2::deserialize_exact(&bytes).is_err(),
            "byte {v} should be rejected"
        );
    }
}

#[test]
fn test_serialize_roundtrip() {
    let val = Z257::from_u64(123);
    let bytes = val.serialize().unwrap();
    assert_eq!(bytes.len(), 2);
    let decoded = Z257::deserialize_exact(&bytes).unwrap();
    assert_eq!(decoded.to_u64(), 123);
}

#[test]
fn test_serialize_rejects_non_canonical() {
    // Z274177 serializes in 3 bytes. Test that values >= 274177 are rejected.
    let bytes = [0x00, 0x00, 0x05]; // 0x050000 = 327680 >= 274177
    assert!(Z274177::deserialize_exact(&bytes).is_err());
}

#[test]
fn types_test_serialization_round_trip() {
    let vec = RingVec::new(vec![F17::from_u64(1), F17::from_u64(2), F17::from_u64(3)]);
    let bytes = vec.serialize().unwrap();
    let decoded = RingVec::<F17>::deserialize_exact(&bytes).unwrap();
    assert_eq!(decoded, vec);

    let mat = RingMat::new(
        2,
        2,
        vec![
            F17::from_u64(1),
            F17::from_u64(2),
            F17::from_u64(3),
            F17::from_u64(4),
        ],
    );
    let bytes = mat.serialize().unwrap();
    let decoded = RingMat::<F17>::deserialize_exact(&bytes).unwrap();
    assert_eq!(decoded, mat);
}

#[test]
fn test_norm_bound_serialize_round_trip() {
    let bound = NormBound {
        max_l2_sq: 123,
        max_linf: 7,
    };
    let bytes = bound.serialize().unwrap();
    let decoded = NormBound::deserialize_exact(&bytes).unwrap();
    assert_eq!(decoded, bound);
    assert!(decoded.is_valid());
}

#[test]
fn prime_test_serialize_round_trip() {
    let ser_bytes = 1;
    for val in 0..17u64 {
        let a = F17::from_u64(val);
        let bytes = a.serialize().unwrap();
        assert_eq!(bytes.len(), ser_bytes);
        let (b, consumed) = F17::deserialize(&bytes).unwrap();
        assert_eq!(consumed, ser_bytes);
        assert_eq!(a, b);
    }
}

#[test]
fn test_deserialize_rejects_out_of_range_value() {
    let err = F17::deserialize(&17u64.to_le_bytes()).unwrap_err();
    assert!(matches!(err, SerializationError::InvalidData(_)));
}

#[test]
fn z2k_test_serialize_round_trip() {
    for val in 0..16u64 {
        let a = Z16::from_u64(val);
        let bytes = a.serialize().unwrap();
        let (b, _) = Z16::deserialize(&bytes).unwrap();
        assert_eq!(a, b);
    }
}

#[test]
fn test_deserialize_rejects_too_short() {
    // Less than one byte (Z16 = Z2K<4> needs 1 byte)
    let err = Z16::deserialize(&[]).unwrap_err();
    assert!(matches!(err, SerializationError::UnexpectedEnd));
}

fn test_basis() -> Arc<RnsBasis> {
    Arc::new(RnsBasis::new(vec![17, 19, 23])) // M = 7429
}

#[test]
fn composite_test_serialize_round_trip() {
    let basis = test_basis();
    for x in [0u64, 1, 42, 1234, 7428] {
        let a = CompositeRing::from_u64_with_basis(x, basis.clone());
        let bytes = a.serialize().unwrap();
        let b = CompositeRing::deserialize_exact_with_basis(&bytes, basis.clone()).unwrap();
        assert_eq!(a, b, "serialize round-trip failed for {x}");
    }
}

#[test]
fn test_composite_one_round_trips_through_serialization() {
    let basis = Arc::new(RnsBasis::new(vec![7, 11]));
    let one = CompositeRing::one_with_basis(basis.clone());
    let bytes = one.serialize().unwrap();
    let decoded = CompositeRing::deserialize_exact_with_basis(&bytes, basis).unwrap();
    assert_eq!(decoded, one);
    assert_eq!(decoded.to_u128(), 1);
}

#[test]
fn test_deserialize_exact_with_basis_rejects_trailing_bytes() {
    let basis = test_basis();
    let value = CompositeRing::from_u64_with_basis(42, basis.clone());
    let mut bytes = value.serialize().unwrap();
    bytes.push(0xAA);
    let err = CompositeRing::deserialize_exact_with_basis(&bytes, basis).unwrap_err();
    assert_eq!(
        err,
        SerializationError::InvalidData("trailing bytes after deserialized value".into())
    );
}

#[test]
fn test_deserialize_rejects_wrong_limb_count() {
    let basis = test_basis();
    let mut bytes = Vec::new();
    bytes.extend_from_slice(&2u64.to_le_bytes());
    bytes.extend_from_slice(&1u64.to_le_bytes());
    bytes.extend_from_slice(&2u64.to_le_bytes());
    let err = CompositeRing::deserialize_with_basis(&bytes, basis).unwrap_err();
    assert!(matches!(err, SerializationError::InvalidData(_)));
}

#[test]
fn test_deserialize_rejects_out_of_range_residue() {
    let basis = Arc::new(RnsBasis::new(vec![7, 11]));
    let mut bytes = Vec::new();
    bytes.extend_from_slice(&2u64.to_le_bytes());
    bytes.extend_from_slice(&7u64.to_le_bytes());
    bytes.extend_from_slice(&1u64.to_le_bytes());
    let err = CompositeRing::deserialize_with_basis(&bytes, basis).unwrap_err();
    assert!(matches!(err, SerializationError::InvalidData(_)));
}

#[test]
fn serialization_error_kinds_and_sizes() {
    // Truncated vector: the header promises three entries but only two follow.
    let vec = RingVec::new(vec![F17::from_u64(1), F17::from_u64(2), F17::from_u64(3)]);
    let mut bytes = vec.serialize().unwrap();
    assert_eq!(vec.serialized_size(), bytes.len());
    bytes.pop();
    assert_eq!(RingVec::<F17>::deserialize(&bytes).unwrap_err(), SerializationError::UnexpectedEnd);
    // An entry out of range.
    let mut bad = 1u64.to_le_bytes().to_vec();
    bad.push(17);
    assert!(matches!(RingVec::<F17>::deserialize(&bad), Err(SerializationError::InvalidData(_))));
    // A matrix whose shape overflows.
    let mut huge = u64::MAX.to_le_bytes().to_vec();
    huge.extend_from_slice(&2u64.to_le_bytes());
    assert!(matches!(RingMat::<F17>::deserialize(&huge), Err(SerializationError::InvalidData(_))));
    // Trailing bytes after a field element.
    assert!(matches!(F17::deserialize_exact(&[3, 0]), Err(SerializationError::InvalidData(_))));
    assert_eq!(F17::deserialize(&[3, 0]).unwrap().1, 1);
    // Goldilocks and 2^64 take eight bytes.
    let g = Z2K::<64>::from_u64(u64::MAX);
    assert_eq!(g.serialize().unwrap(), u64::MAX.to_le_bytes().to_vec());
    let bound = NormBound { max_l2_sq: u128::MAX, max_linf: 9 };
    let bytes = bound.serialize().unwrap();
    assert_eq!(bytes.len(), 24);
    assert_eq!(NormBound::deserialize_exact(&bytes).unwrap(), bound);
    assert_eq!(NormBound::deserialize(&bytes[..23]).unwrap_err(), SerializationError::UnexpectedEnd);
}
