use relayer_utils::cryptos::{
    calculate_account_salt, calculate_default_hash, email_nullifier, extract_rand_from_signature,
    public_key_hash, AccountCode, AccountSalt, PaddedEmailAddr, PoseidonError, RelayerRand,
};
use relayer_utils::field::{field_to_hex, hex_to_field, FieldElement};

#[test]
fn test_public_key_hash() {
    let mut public_key_n = hex::decode(
        "cfb0520e4ad78c4adb0deb5e605162b6469349fc1fde9269b88d596ed9f3735c00c592317c982320874b987bcc38e8556ac544bdee169b66ae8fe639828ff5afb4f199017e3d8e675a077f21cd9e5c526c1866476e7ba74cd7bb16a1c3d93bc7bb1d576aedb4307c6b948d5b8c29f79307788d7a8ebf84585bf53994827c23a5",
    )
    .unwrap();
    public_key_n.reverse();
    let hash_field = public_key_hash(&public_key_n).unwrap();
    let expected_hash = format!(
        "0x{}",
        hex::encode([
            24, 26, 185, 80, 217, 115, 238, 83, 131, 133, 50, 236, 177, 184, 177, 21, 40, 246,
            234, 122, 176, 142, 40, 104, 251, 50, 24, 70, 64, 82, 249, 83,
        ])
    );
    assert_eq!(field_to_hex(&hash_field), expected_hash);
}

fn code(hex: &str) -> AccountCode {
    AccountCode::from(hex_to_field(hex).unwrap())
}

const CODE_A: &str = "0x01eb9b204cc24c3baee11accc37d253a9c53e92b1a2cc07763475c135d575b76";
const CODE_B: &str = "0x01eb9b204cc24c3baee11accc37d253a9c53e92b1a2cc07763475c135d575b77";

#[test]
fn padded_email_addr_keeps_length_and_pads_with_zeros() {
    let p = PaddedEmailAddr::from_email_addr("alice@example.com");
    assert_eq!(p.email_addr_len, 17);
    assert_eq!(p.padded_bytes.len(), 256);
    assert_eq!(&p.padded_bytes[..17], b"alice@example.com");
    assert!(p.padded_bytes[17..].iter().all(|b| *b == 0));
    assert_eq!(p.to_email_addr_fields().len(), 9);
}

#[test]
fn account_salt_is_deterministic_and_input_sensitive() {
    let a = PaddedEmailAddr::from_email_addr("alice@example.com");
    let b = PaddedEmailAddr::from_email_addr("bob@example.com");
    let s1 = AccountSalt::new(&a, code(CODE_A)).unwrap();
    let s2 = AccountSalt::new(&a, code(CODE_A)).unwrap();
    let s3 = AccountSalt::new(&b, code(CODE_A)).unwrap();
    let s4 = AccountSalt::new(&a, code(CODE_B)).unwrap();
    assert_eq!(s1.0, s2.0);
    assert_ne!(s1.0, s3.0);
    assert_ne!(s1.0, s4.0);
    assert_ne!(s3.0, s4.0);
}

#[test]
fn calculate_account_salt_matches_account_salt() {
    let a = PaddedEmailAddr::from_email_addr("alice@example.com");
    let s = AccountSalt::new(&a, code(CODE_A)).unwrap();
    let with_prefix = calculate_account_salt("alice@example.com", CODE_A);
    let without_prefix = calculate_account_salt("alice@example.com", &CODE_A[2..]);
    assert_eq!(with_prefix, field_to_hex(&s.0));
    assert_eq!(without_prefix, with_prefix);
    assert_eq!(with_prefix.len(), 66);
    assert!(with_prefix.starts_with("0x"));
}

#[test]
fn commitments_bind_their_inputs() {
    let a = PaddedEmailAddr::from_email_addr("alice@example.com");
    let r1 = hex_to_field(CODE_A).unwrap();
    let r2 = hex_to_field(CODE_B).unwrap();
    let c1 = a.to_commitment(&r1).unwrap();
    assert_eq!(c1, a.to_commitment(&r1).unwrap());
    assert_ne!(c1, a.to_commitment(&r2).unwrap());
    let rand = RelayerRand(r1);
    let h = rand.hash().unwrap();
    let ac = code(CODE_B).to_commitment(&a, &h).unwrap();
    assert_ne!(ac, c1);
}

#[test]
fn signature_randomness_and_nullifier_are_deterministic() {
    let sig: Vec<u8> = (0u8..=255).collect();
    let r1 = extract_rand_from_signature(&sig).unwrap();
    let r2 = extract_rand_from_signature(&sig).unwrap();
    assert_eq!(r1, r2);
    let n = email_nullifier(&sig).unwrap();
    assert_ne!(n, r1);
    let a = PaddedEmailAddr::from_email_addr("alice@example.com");
    assert_eq!(
        a.to_commitment_with_signature(&sig).unwrap(),
        a.to_commitment(&r1).unwrap()
    );
}

#[test]
fn poseidon_refuses_too_many_inputs() {
    let long = vec![1u8; 31 * 16];
    assert_eq!(
        AccountSalt::from_bytes(&long).map(|s| s.0),
        Err(PoseidonError::InvalidInputLength)
    );
    assert!(AccountSalt::from_bytes(&vec![1u8; 31 * 15]).is_ok());
}

#[test]
fn relayer_rand_hash_of_zero_is_not_zero() {
    let h = RelayerRand(FieldElement::zero()).hash().unwrap();
    assert_ne!(h, FieldElement::zero());
}

#[test]
fn default_hash_is_decimal_and_stable() {
    let a = calculate_default_hash("hello");
    assert!(!a.is_empty());
    assert!(a.chars().all(|c| c.is_ascii_digit()));
    assert_eq!(a, calculate_default_hash("hello"));
    assert_ne!(a, calculate_default_hash("hellp"));
}
