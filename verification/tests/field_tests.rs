use distributed_prover::field::{usize_deserialize_uncompressed_unchecked, usize_uncompressed_size, FieldDecodeError, FieldElement};

const MODULUS_LIMBS: [u64; 4] = [
    0xffffffff00000001,
    0x53bda402fffe5bfe,
    0x3339d80809a1d805,
    0x73eda753299d7d48,
];

fn modulus_bytes() -> Vec<u8> {
    let mut out = Vec::new();
    for limb in MODULUS_LIMBS.iter() {
        out.extend_from_slice(&limb.to_le_bytes());
    }
    out
}

#[test]
fn from_u64_keeps_the_value() {
    let f = FieldElement::from_u64(0x0102_0304_0506_0708);
    assert_eq!(f.to_limbs(), [0x0102_0304_0506_0708, 0, 0, 0]);
    assert_eq!(FieldElement::from_u64(0).to_limbs(), [0, 0, 0, 0]);
    assert_eq!(FieldElement::from_u64(u64::MAX).to_limbs(), [u64::MAX, 0, 0, 0]);
}

#[test]
fn from_limbs_accepts_exactly_the_canonical_values() {
    assert!(FieldElement::from_limbs(MODULUS_LIMBS).is_none());
    assert!(FieldElement::from_limbs([u64::MAX; 4]).is_none());
    let mut below = MODULUS_LIMBS;
    below[0] -= 1;
    let f = FieldElement::from_limbs(below).unwrap();
    assert_eq!(f.to_limbs(), below);
    let g = FieldElement::from_limbs([7, 0, 0, 1]).unwrap();
    assert_eq!(g.to_limbs(), [7, 0, 0, 1]);
}

#[test]
fn ordering_is_that_of_the_integers() {
    let small = FieldElement::from_u64(5);
    let big = FieldElement::from_limbs([0, 0, 1, 0]).unwrap();
    assert!(small.le(&big));
    assert!(!big.le(&small));
    assert!(small.le(&FieldElement::from_u64(5)));
    assert!(!FieldElement::from_u64(6).le(&small));
    let mut top = MODULUS_LIMBS;
    top[0] -= 1;
    let top = FieldElement::from_limbs(top).unwrap();
    assert!(big.le(&top));
    assert!(!top.le(&big));
}

#[test]
fn serialization_is_32_little_endian_bytes() {
    let mut out = vec![9u8];
    FieldElement::from_u64(258).serialize_uncompressed(&mut out);
    assert_eq!(out.len(), 33);
    assert_eq!(out[0], 9);
    assert_eq!(out[1], 2);
    assert_eq!(out[2], 1);
    assert!(out[3..].iter().all(|b| *b == 0));
    let f = FieldElement::from_limbs([1, 2, 3, 4]).unwrap();
    let mut out = Vec::new();
    f.serialize_uncompressed(&mut out);
    assert_eq!(out[0], 1);
    assert_eq!(out[8], 2);
    assert_eq!(out[16], 3);
    assert_eq!(out[24], 4);
    assert_eq!(FieldElement::uncompressed_size(), 32);
}

#[test]
fn deserialization_reads_back_and_rejects_bad_input() {
    let f = FieldElement::from_limbs([11, 22, 33, 44]).unwrap();
    let mut out = Vec::new();
    f.serialize_uncompressed(&mut out);
    out.push(0xaa);
    let g = FieldElement::deserialize_uncompressed_unchecked(&out).unwrap();
    assert_eq!(g.to_limbs(), [11, 22, 33, 44]);

    assert_eq!(
        FieldElement::deserialize_uncompressed_unchecked(&out[..31]).err(),
        Some(FieldDecodeError::NotEnoughBytes)
    );
    assert_eq!(
        FieldElement::deserialize_uncompressed_unchecked(&modulus_bytes()).err(),
        Some(FieldDecodeError::NotCanonical)
    );
    assert_eq!(
        FieldElement::deserialize_uncompressed_unchecked(&[0xff; 32]).err(),
        Some(FieldDecodeError::NotCanonical)
    );
}

#[test]
fn usize_reads_eight_little_endian_bytes() {
    let bytes = [0x10u8, 0x20, 0, 0, 0, 0, 0, 0, 0xff];
    assert_eq!(usize_deserialize_uncompressed_unchecked(&bytes), Some(0x2010));
    assert_eq!(usize_deserialize_uncompressed_unchecked(&bytes[..7]), None);
    assert_eq!(usize_uncompressed_size(), 8);
}
