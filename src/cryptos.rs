//! Poseidon commitments over padded email addresses, account codes and signatures.
use crate::converters::{
    bit_len_fits, bytes_chunk_fields, bytes_field_values, bytes_to_fields, chunk_field_values, field_values,
    reversed, u128_to_decimal, dec_chars,
};
use crate::field::{
    field_hex, field_to_hex, hex_to_field, hex_to_field_spec, strip_hex_prefix, FieldElement,
};
use crate::sha::zeros;
use crate::converters::push_char;
use vstd::prelude::*;
use vstd::string::{StringExecFns, StringSliceAdditionalSpecFns};

verus! {

/// Bytes an email address is padded to.
pub const MAX_EMAIL_ADDR_BYTES: usize = 256;

/// The Poseidon hash (circom's parameters, over the BN254 scalar field) of a
/// sequence of field element values.
pub uninterp spec fn poseidon_of(inputs: Seq<nat>) -> nat;

/// Why a Poseidon hash was refused.
#[derive(Debug, Clone, Copy, PartialEq, Eq)]
pub enum PoseidonError {
    /// The hash takes between one and sixteen inputs.
    InvalidInputLength,
}

/// Relies on poseidon_rs::Poseidon::hash, which refuses an empty input and one of
/// more than sixteen elements, and otherwise returns a field element that depends
/// on the inputs alone; and on ff_ce's PrimeField::from_repr and into_repr, which
/// carry canonical little-endian limbs in and out.
#[verifier::external_body]
pub(crate) fn poseidon_fields(inputs: &Vec<FieldElement>) -> (r: Result<FieldElement, PoseidonError>)
    requires
        forall|i: int| 0 <= i < inputs@.len() ==> (#[trigger] inputs@[i]).wf(),
    ensures
        r is Ok <==> 1 <= inputs@.len() <= 16,
        r matches Ok(h) ==> h.wf() && h.value() == poseidon_of(field_values(inputs@)),
{
    let mut v: Vec<poseidon_rs::Fr> = Vec::new();
    for x in inputs.iter() {
        v.push(ff_ce::PrimeField::from_repr(poseidon_rs::FrRepr(x.limbs)).unwrap());
    }
    match poseidon_rs::Poseidon::new().hash(v) {
        Ok(h) => Ok(FieldElement { limbs: ff_ce::PrimeField::into_repr(&h).0 }),
        Err(_) => Err(PoseidonError::InvalidInputLength),
    }
}

/// The bytes of an email address zero-extended to `MAX_EMAIL_ADDR_BYTES`.
pub open spec fn padded_addr_bytes(addr: Seq<u8>) -> Seq<u8> {
    addr + zeros((MAX_EMAIL_ADDR_BYTES - addr.len()) as nat)
}

/// An email address padded with zero bytes to a fixed length, with its own length.
#[derive(Debug, Clone)]
pub struct PaddedEmailAddr {
    pub padded_bytes: Vec<u8>,
    pub email_addr_len: usize,
}

impl PaddedEmailAddr {
    /// Pads the UTF-8 bytes of `email_addr` with zeros to `MAX_EMAIL_ADDR_BYTES`.
    pub fn from_email_addr(email_addr: &str) -> (r: Self)
        requires
            email_addr.spec_bytes().len() <= MAX_EMAIL_ADDR_BYTES,
        ensures
            r.email_addr_len == email_addr.spec_bytes().len(),
            r.padded_bytes@ == padded_addr_bytes(email_addr.spec_bytes()),
    {
        let b = email_addr.as_bytes();
        let mut padded: Vec<u8> = Vec::new();
        let mut i: usize = 0;
        while i < b.len()
            invariant
                i <= b@.len(),
                padded@ == b@.subrange(0, i as int),
            decreases b@.len() - i,
        {
            padded.push(b[i]);
            i = i + 1;
            assert(padded@ =~= b@.subrange(0, i as int));
        }
        assert(padded@ =~= b@);
        while padded.len() < MAX_EMAIL_ADDR_BYTES
            invariant
                b@.len() <= padded@.len() <= MAX_EMAIL_ADDR_BYTES,
                padded@ == b@ + zeros((padded@.len() - b@.len()) as nat),
            decreases MAX_EMAIL_ADDR_BYTES - padded@.len(),
        {
            padded.push(0);
            assert(padded@ =~= b@ + zeros((padded@.len() - b@.len()) as nat));
        }
        PaddedEmailAddr { padded_bytes: padded, email_addr_len: b.len() }
    }

    /// The padded bytes cut into field elements of 31 bytes each.
    pub fn to_email_addr_fields(&self) -> (r: Vec<FieldElement>)
        requires
            bit_len_fits(self.padded_bytes@.len()),
        ensures
            field_values(r@) == bytes_field_values(self.padded_bytes@),
            forall|k: int| 0 <= k < r@.len() ==> (#[trigger] r@[k]).wf(),
    {
        bytes_to_fields(&self.padded_bytes)
    }

    /// The Poseidon hash of `rand` followed by the address's field elements.
    pub fn to_commitment(&self, rand: &FieldElement) -> (r: Result<FieldElement, PoseidonError>)
        requires
            rand.wf(),
            bit_len_fits(self.padded_bytes@.len()),
        ensures
            r is Ok <==> bytes_field_values(self.padded_bytes@).len() <= 15,
            r matches Ok(h) ==> h.wf() && h.value() == poseidon_of(
                seq![rand.value()] + bytes_field_values(self.padded_bytes@),
            ),
    {
        let mut inputs: Vec<FieldElement> = vec![*rand];
        let mut fields = self.to_email_addr_fields();
        inputs.append(&mut fields);
        let r = poseidon_fields(&inputs);
        assert(field_values(inputs@) =~= seq![rand.value()] + bytes_field_values(self.padded_bytes@));
        r
    }

    /// The commitment with the randomness that `extract_rand_from_signature`
    /// derives from `signature`.
    pub fn to_commitment_with_signature(&self, signature: &Vec<u8>) -> (r: Result<
        FieldElement,
        PoseidonError,
    >)
        requires
            bit_len_fits(self.padded_bytes@.len()),
            bit_len_fits(signature@.len()),
        ensures
            r is Ok <==> (signature_rand_inputs(signature@).len() <= 16 && bytes_field_values(
                self.padded_bytes@,
            ).len() <= 15),
            r matches Ok(h) ==> h.wf() && h.value() == poseidon_of(
                seq![poseidon_of(signature_rand_inputs(signature@))] + bytes_field_values(
                    self.padded_bytes@,
                ),
            ),
    {
        let cm_rand = match extract_rand_from_signature(signature) {
            Ok(x) => x,
            Err(e) => {
                return Err(e);
            },
        };
        self.to_commitment(&cm_rand)
    }
}

/// The chunked field elements of a signature read little-endian, followed by `1`.
pub open spec fn signature_rand_inputs(signature: Seq<u8>) -> Seq<nat> {
    chunk_field_values(signature.reverse(), 121, 2, 17).push(1)
}

/// Derives commitment randomness from a signature: the bytes reversed, cut into
/// 121-bit chunks two to a field element, followed by `1`, Poseidon-hashed.
pub fn extract_rand_from_signature(signature: &Vec<u8>) -> (r: Result<FieldElement, PoseidonError>)
    requires
        bit_len_fits(signature@.len()),
    ensures
        r is Ok <==> signature_rand_inputs(signature@).len() <= 16,
        r matches Ok(h) ==> h.wf() && h.value() == poseidon_of(signature_rand_inputs(signature@)),
{
    let rev = reversed(signature);
    let mut inputs = bytes_chunk_fields(&rev, 121, 2, 17);
    inputs.push(FieldElement::one());
    let r = poseidon_fields(&inputs);
    assert(field_values(inputs@) =~= signature_rand_inputs(signature@));
    r
}

/// The Poseidon hash of a public key modulus given in little-endian bytes, cut
/// into 121-bit chunks two to a field element.
pub fn public_key_hash(public_key_n: &Vec<u8>) -> (r: Result<FieldElement, PoseidonError>)
    requires
        bit_len_fits(public_key_n@.len()),
    ensures
        r is Ok <==> chunk_field_values(public_key_n@, 121, 2, 17).len() <= 16,
        r matches Ok(h) ==> h.wf() && h.value() == poseidon_of(
            chunk_field_values(public_key_n@, 121, 2, 17),
        ),
{
    let inputs = bytes_chunk_fields(public_key_n, 121, 2, 17);
    poseidon_fields(&inputs)
}

/// The email nullifier: the Poseidon hash of the Poseidon hash of a signature
/// given in little-endian bytes, cut into 121-bit chunks two to a field element.
pub fn email_nullifier(signature: &Vec<u8>) -> (r: Result<FieldElement, PoseidonError>)
    requires
        bit_len_fits(signature@.len()),
    ensures
        r is Ok <==> chunk_field_values(signature@, 121, 2, 17).len() <= 16,
        r matches Ok(h) ==> h.wf() && h.value() == poseidon_of(
            seq![poseidon_of(chunk_field_values(signature@, 121, 2, 17))],
        ),
{
    let inputs = bytes_chunk_fields(signature, 121, 2, 17);
    let sign_rand = match poseidon_fields(&inputs) {
        Ok(h) => h,
        Err(e) => {
            return Err(e);
        },
    };
    let outer = vec![sign_rand];
    let r = poseidon_fields(&outer);
    assert(field_values(outer@) =~= seq![sign_rand.value()]);
    r
}

/// Randomness that a relayer holds.
#[derive(Debug, Clone, Copy)]
pub struct RelayerRand(pub FieldElement);

impl RelayerRand {
    /// The Poseidon hash of the randomness alone.
    pub fn hash(&self) -> (r: Result<FieldElement, PoseidonError>)
        requires
            self.0.wf(),
        ensures
            r is Ok,
            r matches Ok(h) ==> h.wf() && h.value() == poseidon_of(seq![self.0.value()]),
    {
        let inputs = vec![self.0];
        assert(field_values(inputs@) =~= seq![self.0.value()]);
        poseidon_fields(&inputs)
    }
}

/// A secret field element that an account's salt binds to its email address.
#[derive(Debug, Clone, Copy)]
pub struct AccountCode(pub FieldElement);

impl AccountCode {
    /// The account code with the value `elem`.
    pub fn from(elem: FieldElement) -> (r: Self)
        ensures
            r.0 == elem,
    {
        AccountCode(elem)
    }

    /// The Poseidon hash of the code, the address's field elements and the hash
    /// of the relayer's randomness.
    pub fn to_commitment(&self, email_addr: &PaddedEmailAddr, relayer_rand_hash: &FieldElement) -> (r:
        Result<FieldElement, PoseidonError>)
        requires
            self.0.wf(),
            relayer_rand_hash.wf(),
            bit_len_fits(email_addr.padded_bytes@.len()),
        ensures
            r is Ok <==> bytes_field_values(email_addr.padded_bytes@).len() <= 14,
            r matches Ok(h) ==> h.wf() && h.value() == poseidon_of(
                seq![self.0.value()] + bytes_field_values(email_addr.padded_bytes@).push(
                    relayer_rand_hash.value(),
                ),
            ),
    {
        let mut inputs: Vec<FieldElement> = vec![self.0];
        let mut fields = email_addr.to_email_addr_fields();
        inputs.append(&mut fields);
        inputs.push(*relayer_rand_hash);
        assert(field_values(inputs@) =~= seq![self.0.value()] + bytes_field_values(
            email_addr.padded_bytes@,
        ).push(relayer_rand_hash.value()));
        poseidon_fields(&inputs)
    }
}

/// The inputs of an account salt: the address's field elements, the code, and `0`.
pub open spec fn account_salt_inputs(padded: Seq<u8>, code: nat) -> Seq<nat> {
    bytes_field_values(padded).push(code).push(0)
}

/// The Poseidon hash of a padded email address and an account code.
#[derive(Debug, Clone, Copy)]
pub struct AccountSalt(pub FieldElement);

impl AccountSalt {
    /// The salt of `email_addr` under `account_code`.
    pub fn new(email_addr: &PaddedEmailAddr, account_code: AccountCode) -> (r: Result<
        Self,
        PoseidonError,
    >)
        requires
            account_code.0.wf(),
            bit_len_fits(email_addr.padded_bytes@.len()),
        ensures
            r is Ok <==> bytes_field_values(email_addr.padded_bytes@).len() <= 14,
            r matches Ok(s) ==> s.0.wf() && s.0.value() == poseidon_of(
                account_salt_inputs(email_addr.padded_bytes@, account_code.0.value()),
            ),
    {
        let mut inputs = email_addr.to_email_addr_fields();
        inputs.push(account_code.0);
        inputs.push(FieldElement::zero());
        assert(field_values(inputs@) =~= account_salt_inputs(
            email_addr.padded_bytes@,
            account_code.0.value(),
        ));
        match poseidon_fields(&inputs) {
            Ok(h) => Ok(AccountSalt(h)),
            Err(e) => Err(e),
        }
    }

    /// The Poseidon hash of the field elements of `bytes` followed by `0`.
    pub fn from_bytes(bytes: &Vec<u8>) -> (r: Result<Self, PoseidonError>)
        requires
            bit_len_fits(bytes@.len()),
        ensures
            r is Ok <==> bytes_field_values(bytes@).len() <= 15,
            r matches Ok(s) ==> s.0.wf() && s.0.value() == poseidon_of(
                bytes_field_values(bytes@).push(0),
            ),
    {
        let mut inputs = bytes_to_fields(bytes);
        inputs.push(FieldElement::zero());
        assert(field_values(inputs@) =~= bytes_field_values(bytes@).push(0));
        match poseidon_fields(&inputs) {
            Ok(h) => Ok(AccountSalt(h)),
            Err(e) => Err(e),
        }
    }
}

/// The salt depends on the address and the code alone: two addresses with the
/// same padded bytes and two codes with the same value give the same salt.
pub proof fn lemma_account_salt_pure(a: Seq<u8>, b: Seq<u8>, c: nat, d: nat)
    requires
        a == b,
        c == d,
    ensures
        poseidon_of(account_salt_inputs(a, c)) == poseidon_of(account_salt_inputs(b, d)),
{
}

/// An account code written with or without its `0x` prefix, with it.
pub open spec fn with_hex_prefix(s: Seq<char>) -> Seq<char> {
    if s.len() >= 2 && s[0] == '0' && s[1] == 'x' {
        s
    } else {
        seq!['0', 'x'] + s
    }
}

/// The hexadecimal form of the salt of `email_addr` under the account code
/// written in `account_code`.
pub open spec fn account_salt_hex(email_addr: Seq<u8>, account_code: Seq<char>) -> Seq<char> {
    field_hex(
        poseidon_of(
            account_salt_inputs(
                padded_addr_bytes(email_addr),
                hex_to_field_spec(with_hex_prefix(account_code))->Ok_0,
            ),
        ),
    )
}

/// The hexadecimal form of the account salt of an email address under an account
/// code given in hexadecimal, with or without `0x`.
pub fn calculate_account_salt(email_addr: &str, account_code: &str) -> (r: String)
    requires
        email_addr.spec_bytes().len() <= MAX_EMAIL_ADDR_BYTES,
        hex_to_field_spec(with_hex_prefix(account_code@)) is Ok,
    ensures
        r@ == account_salt_hex(email_addr.spec_bytes(), account_code@),
{
    let padded_email_addr = PaddedEmailAddr::from_email_addr(email_addr);
    let code = match strip_hex_prefix(account_code) {
        Some(_) => hex_to_field(account_code),
        None => {
            let mut prefixed = String::new();
            push_char(&mut prefixed, '0');
            push_char(&mut prefixed, 'x');
            prefixed.append(account_code);
            assert(prefixed@ =~= with_hex_prefix(account_code@));
            hex_to_field(prefixed.as_str())
        },
    };
    let code = match code {
        Ok(f) => f,
        Err(_) => {
            proof {
                assert(false);
            }
            FieldElement::zero()
        },
    };
    assert(bytes_field_values(padded_email_addr.padded_bytes@).len() == 9);
    match AccountSalt::new(&padded_email_addr, AccountCode::from(code)) {
        Ok(salt) => field_to_hex(&salt.0),
        Err(_) => {
            proof {
                assert(false);
            }
            String::new()
        },
    }
}

/// Relies on std's Hash::hash for str: feeds the string to the hasher.
#[verifier::external_body]
fn hash_str(input: &str, hasher: &mut std::collections::hash_map::DefaultHasher) {
    std::hash::Hash::hash(input, hasher)
}

/// A 64-bit hash of `input` with std's default hasher, in decimal.
pub fn calculate_default_hash(input: &str) -> (r: String)
    ensures
        exists|h: u64| r@ == dec_chars(h as nat),
{
    let mut hasher = std::collections::hash_map::DefaultHasher::new();
    hash_str(input, &mut hasher);
    let h = std::hash::Hasher::finish(&hasher);
    u128_to_decimal(h as u128)
}

} // verus!
