//! Assembling the inputs of the email circuit: padded header and body, the
//! split for a precomputed body hash, chunked RSA values and external inputs.
use crate::converters::{
    bytes_field_values, bytes_to_fields, ceil_div, circom_chunks, field_values, dec_chars,
    to_circom_bigint_bytes, be_value, bit_len_fits,
};
use crate::cryptos::{padded_addr_bytes, AccountCode, PaddedEmailAddr, MAX_EMAIL_ADDR_BYTES};
use crate::field::{decode_hex, field_hex, field_to_hex, hex_decode, strip_hex_prefix, FieldElement};
use crate::sha::{
    generate_partial_sha, partial_sha_split, selector_view, sha256_pad, sha256_padded,
    sha_message_len, zeros, PartialShaError,
};
use vstd::prelude::*;
use vstd::string::StringExecFns;
use vstd::string::StringSliceAdditionalSpecFns;
use vstd::utf8::encode_utf8;

verus! {

/// Default bytes of a padded header.
pub const MAX_HEADER_PADDED_BYTES: usize = 1024;

/// Default bytes of a padded body.
pub const MAX_BODY_PADDED_BYTES: usize = 1536;

/// Why circuit inputs could not be built.
#[derive(Debug, Clone, Copy, PartialEq, Eq)]
pub enum CircuitError {
    /// The padded header does not fit the maximum header length.
    HeaderPadding,
    /// The padded body does not fit the maximum body length.
    BodyPadding,
    /// The body could not be split for a precomputed hash.
    PartialSha(PartialShaError),
    /// The prover's address is not `0x` and at most 32 bytes of hex.
    InvalidProverAddress,
    /// The command was not found in a body that the circuit reads.
    CommandNotFound,
}

/// Options of the email circuit, each with a default.
pub struct EmailCircuitParams {
    pub ignore_body_hash_check: Option<bool>,
    pub max_header_length: Option<usize>,
    pub max_body_length: Option<usize>,
    pub sha_precompute_selector: Option<String>,
}

/// What the circuit inputs are built from: the canonicalized header and body, the
/// index of the body hash in the header, and the RSA signature and modulus as
/// big-endian bytes.
pub struct CircuitParams {
    pub body: Vec<u8>,
    pub header: Vec<u8>,
    pub body_hash_idx: usize,
    pub rsa_signature: Vec<u8>,
    pub rsa_public_key: Vec<u8>,
}

/// Options of circuit input generation; a missing one takes its default.
pub struct CircuitOptions {
    pub sha_precompute_selector: Option<String>,
    pub max_header_length: Option<usize>,
    pub max_body_length: Option<usize>,
    pub ignore_body_hash_check: Option<bool>,
}

/// The parameters of circuit input generation with every option settled.
pub struct CircuitInputParams {
    pub body: Vec<u8>,
    pub header: Vec<u8>,
    pub body_hash_idx: usize,
    pub rsa_signature: Vec<u8>,
    pub rsa_public_key: Vec<u8>,
    pub sha_precompute_selector: Option<String>,
    pub max_header_length: usize,
    pub max_body_length: usize,
    pub ignore_body_hash_check: bool,
}

/// An option's value, or the default.
pub open spec fn or_default<T>(o: Option<T>, d: T) -> T {
    match o {
        Some(v) => v,
        None => d,
    }
}

impl CircuitInputParams {
    /// Settles the options: headers of `MAX_HEADER_PADDED_BYTES`, bodies of
    /// `MAX_BODY_PADDED_BYTES`, and the body hash checked, unless given otherwise.
    pub fn new(params: CircuitParams, options: CircuitOptions) -> (r: Self)
        ensures
            r.body@ == params.body@,
            r.header@ == params.header@,
            r.body_hash_idx == params.body_hash_idx,
            r.rsa_signature@ == params.rsa_signature@,
            r.rsa_public_key@ == params.rsa_public_key@,
            r.sha_precompute_selector == options.sha_precompute_selector,
            r.max_header_length == or_default(options.max_header_length, MAX_HEADER_PADDED_BYTES),
            r.max_body_length == or_default(options.max_body_length, MAX_BODY_PADDED_BYTES),
            r.ignore_body_hash_check == or_default(options.ignore_body_hash_check, false),
    {
        CircuitInputParams {
            body: params.body,
            header: params.header,
            body_hash_idx: params.body_hash_idx,
            rsa_signature: params.rsa_signature,
            rsa_public_key: params.rsa_public_key,
            sha_precompute_selector: options.sha_precompute_selector,
            max_header_length: match options.max_header_length {
                Some(v) => v,
                None => MAX_HEADER_PADDED_BYTES,
            },
            max_body_length: match options.max_body_length {
                Some(v) => v,
                None => MAX_BODY_PADDED_BYTES,
            },
            ignore_body_hash_check: match options.ignore_body_hash_check {
                Some(v) => v,
                None => false,
            },
        }
    }
}

/// The body part of the circuit inputs.
pub struct BodyCircuitInput {
    /// The SHA-256 state after the part of the padded body before the split
    /// point; the circuit takes it as a public input.
    pub precomputed_sha: Vec<u8>,
    /// The padded body from the split point on, zero-extended to the maximum body length.
    pub body_padded: Vec<u8>,
    /// The length of the SHA-256 message from the split point on.
    pub body_len_padded_bytes: usize,
    /// Where the body hash stands in the header.
    pub body_hash_idx: usize,
}

/// The inputs of the email circuit.
pub struct CircuitInput {
    pub header_padded: Vec<u8>,
    pub pubkey: Vec<String>,
    pub signature: Vec<String>,
    pub header_len_padded_bytes: usize,
    /// Absent when the body hash check is ignored.
    pub body: Option<BodyCircuitInput>,
}

/// Whether `n` bytes can be SHA-256 padded to exactly `max` bytes.
pub open spec fn pad_fits(n: nat, max: nat) -> bool {
    n < 0x1000_0000_0000_0000 && max <= usize::MAX && sha_message_len(n) <= max && (max - sha_message_len(n)) % 64 == 0
}

/// The length the body is padded to: the maximum body length, or more where the
/// body needs more room.
pub open spec fn body_pad_target(n: nat, max_body: nat) -> nat {
    let need = ((n + 63 + 65) / 64) * 64;
    if max_body < need {
        need
    } else {
        max_body
    }
}

/// The split of the padded body for the given parameters.
pub open spec fn body_split(p: CircuitInputParams) -> Result<(Seq<u8>, Seq<u8>, nat), PartialShaError> {
    body_split_of(p.body@, selector_view(p.sha_precompute_selector), p.max_body_length as nat)
}

/// The split of a body padded for the given selector and maximum body length.
pub open spec fn body_split_of(body: Seq<u8>, selector: Option<Seq<char>>, max_body: nat) -> Result<
    (Seq<u8>, Seq<u8>, nat),
    PartialShaError,
> {
    partial_sha_split(
        sha256_padded(body, body_pad_target(body.len(), max_body)),
        sha_message_len(body.len()),
        selector,
        max_body,
    )
}

/// Why circuit inputs for this header, body and options cannot be built, if
/// they cannot.
pub open spec fn circuit_failure(
    header: Seq<u8>,
    body: Seq<u8>,
    selector: Option<Seq<char>>,
    max_header: nat,
    max_body: nat,
    ignore_body_hash_check: bool,
) -> Option<CircuitError> {
    if !pad_fits(header.len(), max_header) {
        Some(CircuitError::HeaderPadding)
    } else if ignore_body_hash_check {
        None
    } else if !pad_fits(body.len(), body_pad_target(body.len(), max_body)) {
        Some(CircuitError::BodyPadding)
    } else {
        match body_split_of(body, selector, max_body) {
            Ok(_) => None,
            Err(e) => Some(CircuitError::PartialSha(e)),
        }
    }
}

/// Pads the header, encodes the RSA signature and modulus for the circuit, and,
/// unless the body hash check is ignored, pads the body and splits it where the
/// selector first matches so that the part before it can be hashed in advance.
pub fn generate_circuit_inputs(params: CircuitInputParams) -> (r: Result<CircuitInput, CircuitError>)
    ensures
        !pad_fits(params.header@.len(), params.max_header_length as nat) ==> r == Err::<
            CircuitInput,
            CircuitError,
        >(CircuitError::HeaderPadding),
        pad_fits(params.header@.len(), params.max_header_length as nat)
            && params.ignore_body_hash_check ==> r is Ok,
        pad_fits(params.header@.len(), params.max_header_length as nat)
            && !params.ignore_body_hash_check ==> {
            &&& !pad_fits(
                params.body@.len(),
                body_pad_target(params.body@.len(), params.max_body_length as nat),
            ) ==> r == Err::<CircuitInput, CircuitError>(CircuitError::BodyPadding)
            &&& pad_fits(
                params.body@.len(),
                body_pad_target(params.body@.len(), params.max_body_length as nat),
            ) ==> match body_split(params) {
                Ok(_) => r is Ok,
                Err(e) => r == Err::<CircuitInput, CircuitError>(CircuitError::PartialSha(e)),
            }
        },
        match circuit_failure(
            params.header@,
            params.body@,
            selector_view(params.sha_precompute_selector),
            params.max_header_length as nat,
            params.max_body_length as nat,
            params.ignore_body_hash_check,
        ) {
            Some(e) => r == Err::<CircuitInput, CircuitError>(e),
            None => r is Ok,
        },
        r matches Ok(c) ==> {
            &&& c.header_padded@ == sha256_padded(params.header@, params.max_header_length as nat)
            &&& c.header_len_padded_bytes == sha_message_len(params.header@.len())
            &&& c.pubkey@.len() == 17
            &&& c.signature@.len() == 17
            &&& forall|i: int|
                0 <= i < 17 ==> #[trigger] c.pubkey@[i]@ == circom_chunks(
                    be_value(params.rsa_public_key@),
                )[i] && c.signature@[i]@ == circom_chunks(be_value(params.rsa_signature@))[i]
            &&& params.ignore_body_hash_check ==> c.body is None
            &&& !params.ignore_body_hash_check ==> (c.body matches Some(b) && body_split(params)
                == Ok::<(Seq<u8>, Seq<u8>, nat), PartialShaError>(
                (b.precomputed_sha@, b.body_padded@, b.body_len_padded_bytes as nat),
            ) && b.body_hash_idx == params.body_hash_idx)
        },
{
    let hn = params.header.len() as u128;
    if hn >= 0x1000_0000_0000_0000u128 {
        return Err(CircuitError::HeaderPadding);
    }
    let header_msg: u128 = ((hn + 9 + 63) / 64) * 64;
    let max_header = params.max_header_length as u128;
    if header_msg > max_header || (max_header - header_msg) % 64 != 0 {
        return Err(CircuitError::HeaderPadding);
    }
    let (header_padded, header_padded_len) = sha256_pad(params.header, params.max_header_length);
    let pubkey = to_circom_bigint_bytes(&params.rsa_public_key);
    let signature = to_circom_bigint_bytes(&params.rsa_signature);
    if params.ignore_body_hash_check {
        return Ok(
            CircuitInput {
                header_padded,
                pubkey,
                signature,
                header_len_padded_bytes: header_padded_len,
                body: None,
            },
        );
    }
    let bn = params.body.len() as u128;
    if bn >= 0x1000_0000_0000_0000u128 {
        return Err(CircuitError::BodyPadding);
    }
    let body_sha_length: u128 = ((bn + 63 + 65) / 64) * 64;
    let max_body = params.max_body_length as u128;
    let target_wide: u128 = if max_body < body_sha_length {
        body_sha_length
    } else {
        max_body
    };
    let body_msg: u128 = ((bn + 9 + 63) / 64) * 64;
    if target_wide > usize::MAX as u128 || body_msg > target_wide || (target_wide - body_msg) % 64 != 0 {
        return Err(CircuitError::BodyPadding);
    }
    let target = target_wide as usize;
    let ghost gparams = params;
    let (body_padded, body_padded_len) = sha256_pad(params.body, target);
    match generate_partial_sha(
        body_padded,
        body_padded_len,
        params.sha_precompute_selector,
        params.max_body_length,
    ) {
        Ok((precomputed_sha, body_remaining, body_remaining_length)) => Ok(
            CircuitInput {
                header_padded,
                pubkey,
                signature,
                header_len_padded_bytes: header_padded_len,
                body: Some(
                    BodyCircuitInput {
                        precomputed_sha,
                        body_padded: body_remaining,
                        body_len_padded_bytes: body_remaining_length,
                        body_hash_idx: params.body_hash_idx,
                    },
                ),
            },
        ),
        Err(e) => Err(CircuitError::PartialSha(e)),
    }
}

/// The number of 31-byte field elements that `max_length` bytes take.
pub fn compute_signal_length(max_length: usize) -> (r: usize)
    ensures
        r == ceil_div(max_length as nat, 31),
{
    (max_length / 31) + if max_length % 31 != 0 {
        1
    } else {
        0
    }
}

/// `b` without its quoted-printable soft line breaks (`=\r\n`).
pub open spec fn without_soft_breaks(b: Seq<u8>) -> Seq<u8>
    decreases b.len(),
{
    if b.len() == 0 {
        b
    } else if b.len() >= 3 && b[0] == 61 && b[1] == 13 && b[2] == 10 {
        without_soft_breaks(b.subrange(3, b.len() as int))
    } else {
        seq![b[0]] + without_soft_breaks(b.drop_first())
    }
}

proof fn lemma_without_soft_breaks_len(b: Seq<u8>)
    ensures
        without_soft_breaks(b).len() <= b.len(),
    decreases b.len(),
{
    if b.len() > 0 {
        if b.len() >= 3 && b[0] == 61 && b[1] == 13 && b[2] == 10 {
            lemma_without_soft_breaks_len(b.subrange(3, b.len() as int));
        } else {
            lemma_without_soft_breaks_len(b.drop_first());
        }
    }
}

/// Removes the quoted-printable soft line breaks (`=\r\n`) from a padded body and
/// zero-extends the result to the body's length, so that it stays as long as
/// the buffer it came from.
pub fn remove_quoted_printable_soft_breaks(body: Vec<u8>) -> (r: Vec<u8>)
    ensures
        r@ == without_soft_breaks(body@) + zeros(
            (body@.len() - without_soft_breaks(body@).len()) as nat,
        ),
        r@.len() == body@.len(),
{
    let mut out: Vec<u8> = Vec::new();
    let mut i: usize = 0;
    let n = body.len();
    assert(body@.subrange(0, n as int) =~= body@);
    while i < n
        invariant
            i <= n == body@.len(),
            out@ + without_soft_breaks(body@.subrange(i as int, n as int)) == without_soft_breaks(
                body@,
            ),
        decreases n - i,
    {
        let ghost rest = body@.subrange(i as int, n as int);
        if n - i > 2 && body[i] == 61 && body[i + 1] == 13 && body[i + 2] == 10 {
            assert(rest.subrange(3, rest.len() as int) =~= body@.subrange(i + 3, n as int));
            i = i + 3;
        } else {
            assert(rest.drop_first() =~= body@.subrange(i + 1, n as int));
            out.push(body[i]);
            assert(out@ + without_soft_breaks(body@.subrange(i + 1, n as int)) =~= out@.drop_last()
                + (seq![body@[i as int]] + without_soft_breaks(body@.subrange(i + 1, n as int))));
            i = i + 1;
        }
    }
    assert(body@.subrange(n as int, n as int) =~= Seq::<u8>::empty());
    assert(out@ =~= without_soft_breaks(body@));
    proof {
        lemma_without_soft_breaks_len(body@);
    }
    let ghost cleaned = out@;
    while out.len() < n
        invariant
            cleaned.len() <= out@.len() <= n,
            out@ == cleaned + zeros((out@.len() - cleaned.len()) as nat),
        decreases n - out@.len(),
    {
        out.push(0);
        assert(out@ =~= cleaned + zeros((out@.len() - cleaned.len()) as nat));
    }
    out
}

/// Whether `p` occurs in `h` at byte `i`.
pub open spec fn occurs_at(h: Seq<u8>, p: Seq<u8>, i: int) -> bool {
    0 <= i && i + p.len() <= h.len() && h.subrange(i, i + p.len()) == p
}

/// Whether `r` is where `p` first occurs in `h`, or 0 where `p` is empty or does
/// not occur.
pub open spec fn is_first_index(h: Seq<u8>, p: Seq<u8>, r: nat) -> bool {
    if p.len() == 0 {
        r == 0
    } else if exists|i: int| occurs_at(h, p, i) {
        occurs_at(h, p, r as int) && forall|j: int| 0 <= j < r ==> !occurs_at(h, p, j)
    } else {
        r == 0
    }
}

/// Where `pattern` first occurs in the body, or 0 where there is no body, the
/// pattern is empty, or it does not occur.
pub fn find_index_in_body(body: Option<&Vec<u8>>, pattern: &str) -> (r: usize)
    ensures
        match body {
            None => r == 0,
            Some(h) => is_first_index(h@, pattern.spec_bytes(), r as nat),
        },
{
    match body {
        None => 0,
        Some(h) => first_occurrence(h, pattern.as_bytes()),
    }
}

/// Where `p` first occurs in `h`, if it does; an empty `p` is not looked for.
pub(crate) fn find_bytes(h: &[u8], p: &[u8]) -> (r: Option<usize>)
    ensures
        match r {
            Some(i) => p@.len() > 0 && occurs_at(h@, p@, i as int) && forall|j: int|
                0 <= j < i ==> !occurs_at(h@, p@, j),
            None => p@.len() == 0 || !exists|i: int| occurs_at(h@, p@, i),
        },
{
    let m = p.len();
    let hl = h.len();
    if m == 0 {
        return None;
    }
    if m > hl {
        assert forall|i: int| !occurs_at(h@, p@, i) by {}
        return None;
    }
    let mut i: usize = 0;
    while i <= h.len() - m
        invariant
            m == p@.len(),
            m > 0,
            m <= h@.len(),
            i <= h@.len() - m + 1,
            forall|j: int| 0 <= j < i ==> !occurs_at(h@, p@, j),
        decreases h@.len() - i,
    {
        let mut k: usize = 0;
        let mut differs = false;
        while k < m && !differs
            invariant
                k <= m,
                m == p@.len(),
                i + m <= h@.len(),
                forall|t: int| 0 <= t < k ==> h@[i + t] == p@[t],
                differs ==> k < m && h@[i + k] != p@[k as int],
            decreases m - k + (if differs { 0int } else { 1int }),
        {
            assert(i + k < h.len());
            let idx: usize = i + k;
            if h[idx] != p[k] {
                differs = true;
            } else {
                k = k + 1;
            }
        }
        if !differs {
            assert(h@.subrange(i as int, i + m) =~= p@);
            return Some(i);
        }
        assert(!occurs_at(h@, p@, i as int)) by {
            if occurs_at(h@, p@, i as int) {
                assert(h@.subrange(i as int, i + m)[k as int] == h@[i + k]);
            }
        }
        i = i + 1;
    }
    assert forall|j: int| !occurs_at(h@, p@, j) by {
        if j >= i {
            assert(j + m > h@.len());
        }
    }
    None
}

pub(crate) fn first_occurrence(h: &Vec<u8>, p: &[u8]) -> (r: usize)
    ensures
        if p@.len() == 0 {
            r == 0
        } else if exists|i: int| occurs_at(h@, p@, i) {
            occurs_at(h@, p@, r as int) && forall|j: int| 0 <= j < r ==> !occurs_at(h@, p@, j)
        } else {
            r == 0
        },
{
    match find_bytes(h.as_slice(), p) {
        Some(i) => i,
        None => 0,
    }
}

/// An input of the circuit that comes from outside the email: a string, cut into
/// field elements and padded to the number that `max_length` bytes take.
#[derive(Debug, Clone)]
pub struct ExternalInput {
    pub name: String,
    pub value: Option<String>,
    pub max_length: usize,
}

/// Relies on num_bigint's BigUint::from_bytes_le and its Display: the value of
/// the limbs (taken as little-endian bytes) in decimal.
#[verifier::external_body]
fn field_decimal(f: &FieldElement) -> (r: String)
    ensures
        r@ == dec_chars(f.value()),
{
    let bytes: Vec<u8> = f.limbs.iter().flat_map(|l| l.to_le_bytes()).collect();
    num_bigint::BigUint::from_bytes_le(&bytes).to_string()
}

/// Relies on num_bigint's BigUint::from_bytes_be and its Display: the value of
/// big-endian bytes in decimal.
#[verifier::external_body]
fn be_bytes_decimal(b: &Vec<u8>) -> (r: String)
    ensures
        r@ == dec_chars(be_value(b@)),
{
    num_bigint::BigUint::from_bytes_be(b).to_string()
}

/// The decimal strings of the field elements that the UTF-8 bytes of `input`
/// are cut into, 31 bytes each.
pub fn string_to_circom_bigint_bytes(input: &str) -> (r: Vec<String>)
    requires
        bit_len_fits(input.spec_bytes().len()),
    ensures
        r@.len() == bytes_field_values(input.spec_bytes()).len(),
        forall|k: int| 0 <= k < r@.len() ==> #[trigger] r@[k]@ == dec_chars(
            bytes_field_values(input.spec_bytes())[k],
        ),
{
    let b = input.as_bytes();
    let mut bytes: Vec<u8> = Vec::new();
    let mut i: usize = 0;
    while i < b.len()
        invariant
            i <= b@.len(),
            bytes@ == b@.subrange(0, i as int),
        decreases b@.len() - i,
    {
        bytes.push(b[i]);
        i = i + 1;
        assert(bytes@ =~= b@.subrange(0, i as int));
    }
    assert(bytes@ =~= b@);
    let fields = bytes_to_fields(&bytes);
    let mut r: Vec<String> = Vec::new();
    let mut k: usize = 0;
    while k < fields.len()
        invariant
            k <= fields@.len(),
            field_values(fields@) == bytes_field_values(bytes@),
            bytes@ == input.spec_bytes(),
            r@.len() == k,
            forall|j: int| 0 <= j < k ==> #[trigger] r@[j]@ == dec_chars(
                bytes_field_values(input.spec_bytes())[j],
            ),
        decreases fields@.len() - k,
    {
        assert(field_values(fields@)[k as int] == fields@[k as int].value());
        r.push(field_decimal(&fields[k]));
        k = k + 1;
    }
    r
}

/// The signals of an external input: the decimal field elements of its value,
/// then `"0"` up to the number of field elements that `max_length` bytes take.
pub open spec fn external_signals(input: ExternalInput) -> Seq<Seq<char>> {
    let vals = match input.value {
        Some(v) => bytes_field_values(encode_utf8(v@)),
        None => Seq::<nat>::empty(),
    };
    let signal_len = ceil_div(input.max_length as nat, 31);
    let n = if vals.len() < signal_len {
        signal_len
    } else {
        vals.len()
    };
    Seq::new(n, |k: int| if k < vals.len() {
        dec_chars(vals[k])
    } else {
        seq!['0']
    })
}

/// The signals of an external input: the decimal field elements of its value
/// (empty when absent), followed by `"0"` up to the number of field elements
/// that `max_length` bytes take.
pub fn external_input_signals(input: &ExternalInput) -> (r: Vec<String>)
    requires
        bit_len_fits(
            match input.value {
                Some(v) => encode_utf8(v@).len(),
                None => 0,
            },
        ),
    ensures
        ({
            let vals = match input.value {
                Some(v) => bytes_field_values(encode_utf8(v@)),
                None => Seq::<nat>::empty(),
            };
            let signal_len = ceil_div(input.max_length as nat, 31);
            &&& r@.len() == if vals.len() < signal_len {
                signal_len
            } else {
                vals.len()
            }
            &&& forall|k: int| 0 <= k < vals.len() ==> #[trigger] r@[k]@ == dec_chars(vals[k])
            &&& forall|k: int| vals.len() <= k < r@.len() ==> #[trigger] r@[k]@ == seq!['0']
        }),
        r@.len() == external_signals(*input).len(),
        forall|k: int| 0 <= k < r@.len() ==> #[trigger] r@[k]@ == external_signals(*input)[k],
{
    let mut value = match &input.value {
        Some(v) => string_to_circom_bigint_bytes(v.as_str()),
        None => Vec::new(),
    };
    let ghost vlen = value@.len();
    let signal_length = compute_signal_length(input.max_length);
    while value.len() < signal_length
        invariant
            vlen <= value@.len(),
            vlen == match input.value {
                Some(v) => bytes_field_values(encode_utf8(v@)).len(),
                None => 0,
            },
            forall|k: int| 0 <= k < vlen ==> #[trigger] value@[k]@ == dec_chars(
                match input.value {
                    Some(v) => bytes_field_values(encode_utf8(v@)),
                    None => Seq::<nat>::empty(),
                }[k],
            ),
            forall|k: int| vlen <= k < value@.len() ==> #[trigger] value@[k]@ == seq!['0'],
            signal_length == ceil_div(input.max_length as nat, 31),
            vlen < signal_length ==> value@.len() <= signal_length,
            vlen >= signal_length ==> value@.len() == vlen,
        decreases signal_length - value@.len(),
    {
        let mut zero = String::new();
        crate::converters::push_char(&mut zero, '0');
        assert(zero@ =~= seq!['0']);
        value.push(zero);
    }
    value
}

/// The prover's address as a decimal integer, or why it is refused.
pub open spec fn prover_signal(addr: Option<String>) -> Result<Seq<char>, CircuitError> {
    match addr {
        None => Ok(seq!['0']),
        Some(a) => {
            let t = a@;
            if t.len() >= 2 && t[0] == '0' && t[1] == 'x' && hex_decode(t.subrange(2, t.len() as int))
                is Some && hex_decode(t.subrange(2, t.len() as int))->0.len() <= 32 {
                Ok(dec_chars(be_value(hex_decode(t.subrange(2, t.len() as int))->0)))
            } else {
                Err(CircuitError::InvalidProverAddress)
            }
        },
    }
}

/// The prover's address as a decimal integer: `"0"` when there is none, else the
/// value of its `0x`-prefixed hex digits.
pub fn prover_eth_address_signal(addr: &Option<String>) -> (r: Result<String, CircuitError>)
    ensures
        match prover_signal(*addr) {
            Ok(s) => r matches Ok(x) && x@ == s,
            Err(e) => r == Err::<String, CircuitError>(e),
        },
        match addr {
            None => r matches Ok(s) && s@ == seq!['0'],
            Some(a) => {
                let t = a@;
                if t.len() >= 2 && t[0] == '0' && t[1] == 'x' && hex_decode(
                    t.subrange(2, t.len() as int),
                ) is Some && hex_decode(t.subrange(2, t.len() as int))->0.len() <= 32 {
                    r matches Ok(s) && s@ == dec_chars(
                        be_value(hex_decode(t.subrange(2, t.len() as int))->0),
                    )
                } else {
                    r == Err::<String, CircuitError>(CircuitError::InvalidProverAddress)
                }
            },
        },
{
    match addr {
        None => {
            let mut s = String::new();
            crate::converters::push_char(&mut s, '0');
            assert(s@ =~= seq!['0']);
            Ok(s)
        },
        Some(a) => {
            let digits = match strip_hex_prefix(a.as_str()) {
                Some(d) => d,
                None => {
                    return Err(CircuitError::InvalidProverAddress);
                },
            };
            match decode_hex(digits) {
                Some(b) => {
                    if b.len() > 32 {
                        Err(CircuitError::InvalidProverAddress)
                    } else {
                        Ok(be_bytes_decimal(&b))
                    }
                },
                None => Err(CircuitError::InvalidProverAddress),
            }
        },
    }
}

/// Parameters of the circuit inputs built with decomposed regexes and external inputs.
#[derive(Debug, Clone)]
pub struct CircuitInputWithDecomposedRegexesAndExternalInputsParams {
    pub prover_eth_address: Option<String>,
    pub max_header_length: usize,
    pub max_body_length: usize,
    pub ignore_body_hash_check: bool,
    pub remove_soft_lines_breaks: bool,
    pub sha_precompute_selector: Option<String>,
}

/// One public or private part of a decomposed regex.
#[derive(Debug, Clone)]
pub struct RegexPart {
    pub is_public: bool,
    pub regex_def: String,
}

/// A regex split into parts, applied to the header or the body.
#[derive(Debug, Clone)]
pub struct DecomposedRegex {
    pub parts: Vec<RegexPart>,
    pub name: String,
    pub max_length: usize,
    pub location: String,
}

/// The inputs of a circuit built with decomposed regexes and external inputs,
/// but for the regex indices, which the regex engine finds in `regex_search_text`.
pub struct RegexCircuitInputs {
    pub email_header: Vec<u8>,
    pub email_header_length: usize,
    pub pubkey: Vec<String>,
    pub signature: Vec<String>,
    /// Absent when the body hash check is ignored.
    pub body: Option<BodyCircuitInput>,
    /// The body without soft line breaks, when they are to be removed.
    pub decoded_email_body_in: Option<Vec<u8>>,
    /// Each external input's name and signals.
    pub external_inputs: Vec<(String, Vec<String>)>,
    pub prover_eth_address: String,
}

/// Whether an external input's value can be measured in bits.
pub open spec fn external_input_fits(input: ExternalInput) -> bool {
    bit_len_fits(
        match input.value {
            Some(v) => encode_utf8(v@).len(),
            None => 0,
        },
    )
}

fn clone_selector(s: &Option<String>) -> (r: Option<String>)
    ensures
        selector_view(r) == selector_view(*s),
{
    match s {
        Some(t) => Some(t.clone()),
        None => None,
    }
}

/// Builds the circuit inputs: the padded header and body of `generate_circuit_inputs`,
/// the body without soft line breaks where asked for, the signals of each external
/// input, and the prover's address as a decimal integer.
pub fn generate_regex_circuit_inputs(
    email: CircuitParams,
    external_inputs: &Vec<ExternalInput>,
    params: &CircuitInputWithDecomposedRegexesAndExternalInputsParams,
) -> (r: Result<RegexCircuitInputs, CircuitError>)
    requires
        forall|i: int| 0 <= i < external_inputs@.len() ==> external_input_fits(#[trigger] external_inputs@[i]),
    ensures
        ({
            let failure = circuit_failure(
                email.header@,
                email.body@,
                selector_view(params.sha_precompute_selector),
                params.max_header_length as nat,
                params.max_body_length as nat,
                params.ignore_body_hash_check,
            );
            &&& failure matches Some(e) ==> r == Err::<RegexCircuitInputs, CircuitError>(e)
            &&& failure is None ==> match prover_signal(params.prover_eth_address) {
                Ok(_) => r is Ok,
                Err(e) => r == Err::<RegexCircuitInputs, CircuitError>(e),
            }
        }),
        r matches Ok(c) ==> {
            &&& c.email_header@ == sha256_padded(email.header@, params.max_header_length as nat)
            &&& c.email_header@.len() == params.max_header_length
            &&& c.email_header_length == sha_message_len(email.header@.len())
            &&& c.pubkey@.len() == 17
            &&& c.signature@.len() == 17
            &&& forall|i: int|
                0 <= i < 17 ==> #[trigger] c.pubkey@[i]@ == circom_chunks(be_value(email.rsa_public_key@))[i]
                    && c.signature@[i]@ == circom_chunks(be_value(email.rsa_signature@))[i]
            &&& params.ignore_body_hash_check <==> c.body is None
            &&& c.body matches Some(b) ==> body_split_of(
                email.body@,
                selector_view(params.sha_precompute_selector),
                params.max_body_length as nat,
            ) == Ok::<(Seq<u8>, Seq<u8>, nat), PartialShaError>(
                (b.precomputed_sha@, b.body_padded@, b.body_len_padded_bytes as nat),
            ) && b.body_hash_idx == email.body_hash_idx
            &&& (c.decoded_email_body_in is Some <==> (c.body is Some && params.remove_soft_lines_breaks))
            &&& c.decoded_email_body_in matches Some(d) ==> c.body matches Some(b) && d@ == without_soft_breaks(
                b.body_padded@,
            ) + zeros((b.body_padded@.len() - without_soft_breaks(b.body_padded@).len()) as nat)
            &&& c.external_inputs@.len() == external_inputs@.len()
            &&& forall|i: int| 0 <= i < c.external_inputs@.len() ==> (#[trigger] c.external_inputs@[i]).0@ == external_inputs@[i].name@
            &&& forall|i: int| 0 <= i < c.external_inputs@.len() ==> (#[trigger] c.external_inputs@[i]).1@.len()
                == external_signals(external_inputs@[i]).len()
            &&& forall|i: int, k: int| 0 <= i < c.external_inputs@.len() && 0 <= k < c.external_inputs@[i].1@.len()
                ==> (#[trigger] c.external_inputs@[i].1@[k])@ == external_signals(external_inputs@[i])[k]
            &&& prover_signal(params.prover_eth_address) == Ok::<Seq<char>, CircuitError>(c.prover_eth_address@)
        },
{
    let options = CircuitOptions {
        sha_precompute_selector: clone_selector(&params.sha_precompute_selector),
        max_header_length: Some(params.max_header_length),
        max_body_length: Some(params.max_body_length),
        ignore_body_hash_check: Some(params.ignore_body_hash_check),
    };
    let circuit = match generate_circuit_inputs(CircuitInputParams::new(email, options)) {
        Ok(c) => c,
        Err(e) => {
            return Err(e);
        },
    };
    let prover = match prover_eth_address_signal(&params.prover_eth_address) {
        Ok(p) => p,
        Err(e) => {
            return Err(e);
        },
    };
    let decoded = match &circuit.body {
        Some(b) => if params.remove_soft_lines_breaks {
            Some(remove_quoted_printable_soft_breaks(b.body_padded.clone()))
        } else {
            None
        },
        None => None,
    };
    let mut signals: Vec<(String, Vec<String>)> = Vec::new();
    let mut i: usize = 0;
    while i < external_inputs.len()
        invariant
            i <= external_inputs@.len(),
            signals@.len() == i,
            forall|j: int| 0 <= j < external_inputs@.len() ==> external_input_fits(#[trigger] external_inputs@[j]),
            forall|j: int| 0 <= j < i ==> (#[trigger] signals@[j]).0@ == external_inputs@[j].name@,
            forall|j: int| 0 <= j < i ==> (#[trigger] signals@[j]).1@.len() == external_signals(external_inputs@[j]).len(),
            forall|j: int, k: int| 0 <= j < i && 0 <= k < signals@[j].1@.len()
                ==> (#[trigger] signals@[j].1@[k])@ == external_signals(external_inputs@[j])[k],
        decreases external_inputs@.len() - i,
    {
        let input = &external_inputs[i];
        let values = external_input_signals(input);
        signals.push((input.name.clone(), values));
        i = i + 1;
    }
    Ok(
        RegexCircuitInputs {
            email_header: circuit.header_padded,
            email_header_length: circuit.header_len_padded_bytes,
            pubkey: circuit.pubkey,
            signature: circuit.signature,
            body: circuit.body,
            decoded_email_body_in: decoded,
            external_inputs: signals,
            prover_eth_address: prover,
        },
    )
}

/// The text that a decomposed regex applied at `location` is searched in: the
/// padded header for `header`; otherwise the body, without soft line breaks
/// where they were removed, or nothing when the body is absent.
pub fn regex_search_text(inputs: &RegexCircuitInputs, location: &str) -> (r: Vec<u8>)
    ensures
        location@ == "header"@ ==> r@ == inputs.email_header@,
        location@ != "header"@ ==> r@ == match inputs.decoded_email_body_in {
            Some(d) => d@,
            None => match inputs.body {
                Some(b) => b.body_padded@,
                None => Seq::empty(),
            },
        },
{
    if crate::command_templates::str_eq(location, "header") {
        return inputs.email_header.clone();
    }
    match &inputs.decoded_email_body_in {
        Some(d) => d.clone(),
        None => match &inputs.body {
            Some(b) => b.body_padded.clone(),
            None => Vec::new(),
        },
    }
}

/// Where the parts of an email that the circuit checks start.
pub struct EmailIndices {
    pub from_addr_idx: usize,
    pub domain_idx: usize,
    pub timestamp_idx: usize,
    pub subject_idx: usize,
    pub code_idx: usize,
    pub command_idx: usize,
}

/// The inputs of the email authentication circuit.
pub struct EmailCircuitInput {
    pub padded_header: Vec<u8>,
    pub padded_body: Option<Vec<u8>>,
    pub body_hash_idx: Option<usize>,
    pub public_key: Vec<String>,
    pub signature: Vec<String>,
    pub padded_header_len: usize,
    pub padded_body_len: Option<usize>,
    /// The SHA-256 state after the body's prefix that is hashed in advance.
    pub precomputed_sha: Option<Vec<u8>>,
    pub account_code: String,
    pub from_addr_idx: usize,
    /// Present only when the body is absent.
    pub subject_idx: Option<usize>,
    pub domain_idx: usize,
    pub timestamp_idx: usize,
    pub code_idx: usize,
    pub command_idx: usize,
    pub padded_cleaned_body: Option<Vec<u8>>,
}

/// Builds the email circuit's inputs from the circuit inputs, the account code and
/// the indices found in the email. Where the body is present, the invitation code
/// and the command are looked up in the body without soft line breaks instead,
/// and the command must have been found.
pub fn build_email_circuit_input(
    circuit: CircuitInput,
    account_code: &AccountCode,
    idx: &EmailIndices,
    invitation_code: Option<String>,
    command: Option<String>,
) -> (r: Result<EmailCircuitInput, CircuitError>)
    requires
        account_code.0.wf(),
    ensures
        circuit.body is Some && command is None ==> r == Err::<EmailCircuitInput, CircuitError>(
            CircuitError::CommandNotFound,
        ),
        circuit.body is None || command is Some ==> r is Ok,
        r matches Ok(e) ==> {
            &&& e.padded_header@ == circuit.header_padded@
            &&& e.padded_header_len == circuit.header_len_padded_bytes
            &&& e.account_code@ == field_hex(account_code.0.value())
            &&& e.from_addr_idx == idx.from_addr_idx
            &&& e.domain_idx == idx.domain_idx
            &&& e.timestamp_idx == idx.timestamp_idx
            &&& (e.subject_idx is Some <==> circuit.body is None)
            &&& e.subject_idx matches Some(s) ==> s == idx.subject_idx
            &&& circuit.body is None ==> e.code_idx == idx.code_idx && e.command_idx == idx.command_idx
                && e.padded_body is None && e.padded_cleaned_body is None && e.body_hash_idx is None
                && e.padded_body_len is None && e.precomputed_sha is None
            &&& circuit.body matches Some(b) ==> {
                &&& e.padded_body matches Some(p) && p@ == b.body_padded@
                &&& e.padded_cleaned_body matches Some(c) && c@ == without_soft_breaks(b.body_padded@)
                    + zeros((b.body_padded@.len() - without_soft_breaks(b.body_padded@).len()) as nat)
                &&& e.body_hash_idx == Some(b.body_hash_idx)
                &&& e.padded_body_len == Some(b.body_len_padded_bytes)
                &&& e.precomputed_sha matches Some(t) && t@ == b.precomputed_sha@
                &&& command matches Some(c) && is_first_index(
                    e.padded_cleaned_body->0@,
                    encode_utf8(c@),
                    e.command_idx as nat,
                )
                &&& match invitation_code {
                    Some(c) => is_first_index(e.padded_cleaned_body->0@, encode_utf8(c@), e.code_idx as nat),
                    None => e.code_idx == 0,
                }
            }
        },
{
    let account_hex = field_to_hex(&account_code.0);
    match circuit.body {
        None => Ok(
            EmailCircuitInput {
                padded_header: circuit.header_padded,
                padded_body: None,
                body_hash_idx: None,
                public_key: circuit.pubkey,
                signature: circuit.signature,
                padded_header_len: circuit.header_len_padded_bytes,
                padded_body_len: None,
                precomputed_sha: None,
                account_code: account_hex,
                from_addr_idx: idx.from_addr_idx,
                subject_idx: Some(idx.subject_idx),
                domain_idx: idx.domain_idx,
                timestamp_idx: idx.timestamp_idx,
                code_idx: idx.code_idx,
                command_idx: idx.command_idx,
                padded_cleaned_body: None,
            },
        ),
        Some(b) => {
            let command = match command {
                Some(c) => c,
                None => {
                    return Err(CircuitError::CommandNotFound);
                },
            };
            let cleaned = remove_quoted_printable_soft_breaks(b.body_padded.clone());
            let code_idx = match &invitation_code {
                Some(c) => find_index_in_body(Some(&cleaned), c.as_str()),
                None => 0,
            };
            let command_idx = find_index_in_body(Some(&cleaned), command.as_str());
            Ok(
                EmailCircuitInput {
                    padded_header: circuit.header_padded,
                    padded_body: Some(b.body_padded),
                    body_hash_idx: Some(b.body_hash_idx),
                    public_key: circuit.pubkey,
                    signature: circuit.signature,
                    padded_header_len: circuit.header_len_padded_bytes,
                    padded_body_len: Some(b.body_len_padded_bytes),
                    precomputed_sha: Some(b.precomputed_sha),
                    account_code: account_hex,
                    from_addr_idx: idx.from_addr_idx,
                    subject_idx: None,
                    domain_idx: idx.domain_idx,
                    timestamp_idx: idx.timestamp_idx,
                    code_idx,
                    command_idx,
                    padded_cleaned_body: Some(cleaned),
                },
            )
        },
    }
}

/// The inputs of the claim circuit.
pub struct ClaimCircuitInput {
    pub email_addr: Vec<u8>,
    pub cm_rand: String,
    pub account_code: String,
}

/// Builds the claim circuit's inputs: the padded email address, the commitment
/// randomness and the account code, as given.
pub fn generate_claim_input(email_address: &str, email_address_rand: &str, account_code: &str) -> (r:
    ClaimCircuitInput)
    requires
        email_address.spec_bytes().len() <= MAX_EMAIL_ADDR_BYTES,
    ensures
        r.email_addr@ == padded_addr_bytes(email_address.spec_bytes()),
        r.cm_rand@ == email_address_rand@,
        r.account_code@ == account_code@,
{
    let padded = PaddedEmailAddr::from_email_addr(email_address);
    ClaimCircuitInput {
        email_addr: padded.padded_bytes,
        cm_rand: <String as StringExecFns>::from_str(email_address_rand),
        account_code: <String as StringExecFns>::from_str(account_code),
    }
}

} // verus!
