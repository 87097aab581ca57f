use num_bigint::BigUint;
use relayer_utils::converters::{
    bytes_chunk_fields, bytes_to_fields, int64_to_bytes, int8_to_bytes, merge_u8_arrays,
    to_circom_bigint_bytes, u128_to_decimal, u64_to_u8_array_32, uint_to_decimal_string,
};
use relayer_utils::field::{hex_to_u256, HexError};
use relayer_utils::field::{
    bytes32_to_fr, bytes32_to_hex, bytes_to_hex, field_to_hex, fr_to_bytes32, hex_to_field,
    FieldElement, FieldError,
};

#[test]
fn int64_to_bytes_is_big_endian() {
    assert_eq!(int64_to_bytes(0x0102030405060708), vec![1, 2, 3, 4, 5, 6, 7, 8]);
    assert_eq!(int64_to_bytes(0), vec![0; 8]);
    assert_eq!(int8_to_bytes(7), vec![7]);
    assert_eq!(merge_u8_arrays(vec![1, 2], vec![3]), vec![1, 2, 3]);
}

#[test]
fn u64_to_u8_array_32_fills_the_front() {
    let a = u64_to_u8_array_32(258);
    assert_eq!(&a[..8], &[0, 0, 0, 0, 0, 0, 1, 2]);
    assert!(a[8..].iter().all(|b| *b == 0));
}

#[test]
fn u128_to_decimal_writes_digits() {
    assert_eq!(u128_to_decimal(0), "0");
    assert_eq!(u128_to_decimal(9), "9");
    assert_eq!(u128_to_decimal(10), "10");
    assert_eq!(u128_to_decimal(u128::MAX), u128::MAX.to_string());
}

#[test]
fn uint_to_decimal_string_places_the_point() {
    assert_eq!(uint_to_decimal_string(1234, 2), "12.34");
    assert_eq!(uint_to_decimal_string(500, 2), "5");
    assert_eq!(uint_to_decimal_string(5, 2), "0.05");
    assert_eq!(uint_to_decimal_string(50, 3), "0.05");
    assert_eq!(uint_to_decimal_string(0, 0), "0");
    assert_eq!(uint_to_decimal_string(0, 1), "0");
    assert_eq!(uint_to_decimal_string(1_000_000_000_000_000_000, 18), "1");
    assert_eq!(uint_to_decimal_string(1_500_000_000_000_000_000, 18), "1.5");
    assert_eq!(uint_to_decimal_string(123, 0), "123");
}

fn circom_value(chunks: &[String]) -> BigUint {
    chunks.iter().enumerate().fold(BigUint::from(0u8), |acc, (i, c)| {
        acc + (c.parse::<BigUint>().unwrap() << (121usize * i))
    })
}

#[test]
fn circom_chunks_of_small_values() {
    let c = to_circom_bigint_bytes(&vec![1, 0]);
    assert_eq!(c.len(), 17);
    assert_eq!(c[0], "256");
    assert!(c[1..].iter().all(|s| s == "0"));
    let two_121 = (BigUint::from(1u8) << 121usize).to_bytes_be();
    let c = to_circom_bigint_bytes(&two_121);
    assert_eq!(c[0], "0");
    assert_eq!(c[1], "1");
}

#[test]
fn circom_chunks_round_trip() {
    let n: Vec<u8> = (1u8..=255).chain(1u8..=2).collect();
    assert_eq!(n.len(), 257);
    let c = to_circom_bigint_bytes(&n);
    assert_eq!(circom_value(&c), BigUint::from_bytes_be(&n));
    let max = vec![0xffu8; 256];
    assert_eq!(circom_value(&to_circom_bigint_bytes(&max)), BigUint::from_bytes_be(&max));
}

const SAMPLE: &str = "0x0fdc27a6c0e6cc1ad9f6e5d0e2a1b3c4d5e6f708192a3b4c5d6e7f8091a2b3c4";

#[test]
fn field_hex_round_trip() {
    let f = hex_to_field(SAMPLE).unwrap();
    assert_eq!(field_to_hex(&f), SAMPLE);
    assert_eq!(hex_to_field(&field_to_hex(&f)).unwrap(), f);
    let upper = SAMPLE.to_uppercase().replacen("0X", "0x", 1);
    assert_eq!(hex_to_field(&upper).unwrap(), f);
    assert_eq!(
        field_to_hex(&FieldElement::one()),
        "0x0000000000000000000000000000000000000000000000000000000000000001"
    );
}

#[test]
fn hex_to_field_errors() {
    assert_eq!(hex_to_field(&SAMPLE[2..]), Err(FieldError::MissingPrefix));
    assert_eq!(hex_to_field("0xzz"), Err(FieldError::InvalidHex));
    assert_eq!(hex_to_field("0x123"), Err(FieldError::InvalidHex));
    assert_eq!(hex_to_field("0x0102"), Err(FieldError::WrongLength));
    assert_eq!(
        hex_to_field("0x30644e72e131a029b85045b68181585d2833e84879b9709143e1f593f0000001"),
        Err(FieldError::NotInField)
    );
    assert!(
        hex_to_field("0x30644e72e131a029b85045b68181585d2833e84879b9709143e1f593f0000000").is_ok()
    );
}

#[test]
fn bytes32_conversions() {
    let f = hex_to_field(SAMPLE).unwrap();
    let b = fr_to_bytes32(&f);
    assert_eq!(bytes32_to_hex(&b), SAMPLE);
    assert_eq!(bytes32_to_fr(&b).unwrap(), f);
    assert_eq!(bytes32_to_fr(&[0xff; 32]), Err(FieldError::NotInField));
    assert_eq!(bytes_to_hex(&[0xab, 0x01]), "0xab01");
}

#[test]
fn bytes_to_fields_cuts_31_bytes() {
    let mut b = vec![0u8; 32];
    b[0] = 1;
    b[31] = 2;
    let fs = bytes_to_fields(&b);
    assert_eq!(fs.len(), 2);
    assert_eq!(fs[0], FieldElement::one());
    assert_eq!(
        field_to_hex(&fs[1]),
        "0x0000000000000000000000000000000000000000000000000000000000000002"
    );
    assert_eq!(bytes_to_fields(&vec![]).len(), 0);
    assert_eq!(bytes_to_fields(&vec![1u8; 31]).len(), 1);
}

#[test]
fn bytes_chunk_fields_pairs_121_bit_words() {
    let fs = bytes_chunk_fields(&vec![1u8], 121, 2, 17);
    assert_eq!(fs.len(), 9);
    assert_eq!(fs[0], FieldElement::one());
    assert!(fs[1..].iter().all(|f| *f == FieldElement::zero()));
    // bit 242 is bit 0 of the second field element
    let mut b = vec![0u8; 31];
    b[30] = 0x04;
    let fs = bytes_chunk_fields(&b, 121, 2, 17);
    assert_eq!(fs[1], FieldElement::one());
    assert_eq!(fs[0], FieldElement::zero());
}

#[test]
fn hex_to_u256_reads_32_big_endian_bytes() {
    let u = hex_to_u256("0x0000000000000000000000000000000000000000000000000000000000000102").unwrap();
    assert_eq!(u.limbs, [258, 0, 0, 0]);
    let top = hex_to_u256("0x8000000000000000000000000000000000000000000000000000000000000001").unwrap();
    assert_eq!(top.limbs, [1, 0, 0, 0x8000_0000_0000_0000]);
    assert_eq!(hex_to_u256("0102").err(), Some(HexError::MissingPrefix));
    assert_eq!(hex_to_u256("0x01g2").err(), Some(HexError::InvalidHex));
    assert_eq!(hex_to_u256("0x0102").err(), Some(HexError::WrongLength));
}

#[test]
fn bytes_chunk_fields_truncates_to_the_chunk_budget() {
    let two = bytes_chunk_fields(&vec![5u8, 7u8], 8, 1, 1);
    let one = bytes_chunk_fields(&vec![5u8], 8, 1, 1);
    assert_eq!(two, one);
    assert_eq!(two.len(), 1);
    assert_eq!(
        field_to_hex(&two[0]),
        "0x0000000000000000000000000000000000000000000000000000000000000005"
    );
}

#[test]
fn bytes_chunk_fields_reduces_wide_sums() {
    // three 127-bit chunks make 47 whole bytes: 2^376 - 1, reduced modulo the field's order
    let bytes = vec![0xffu8; 48];
    let fs = bytes_chunk_fields(&bytes, 127, 3, 3);
    assert_eq!(fs.len(), 1);
    let p = BigUint::parse_bytes(
        b"21888242871839275222246405745257275088548364400416034343698204186575808495617",
        10,
    )
    .unwrap();
    let v: BigUint = ((BigUint::from(1u8) << 376usize) - BigUint::from(1u8)) % &p;
    let hex = field_to_hex(&fs[0]);
    assert_eq!(BigUint::parse_bytes(hex[2..].as_bytes(), 16).unwrap(), v);
}
