//! SHA-256 block padding and the split of a padded body for a precomputed prefix hash.
use crate::pattern::{regex_find, regex_first_match, regex_valid};
use crate::converters::{be_value, int64_to_bytes, lemma_u64_be_bytes, u64_be_bytes};
use vstd::prelude::*;

verus! {

/// The length of `n` bytes once SHA-256 padded: the least multiple of 64 that
/// leaves room for the `0x80` marker and the eight length bytes.
pub open spec fn sha_message_len(n: nat) -> nat {
    ((n + 9 + 63) / 64) * 64
}

/// `n` zero bytes.
pub open spec fn zeros(n: nat) -> Seq<u8> {
    Seq::new(n, |i: int| 0u8)
}

/// `data` padded by the SHA-256 rule, then zero-extended to `max_len` bytes.
pub open spec fn sha256_padded(data: Seq<u8>, max_len: nat) -> Seq<u8> {
    let n = data.len();
    let m = sha_message_len(n);
    data + seq![0x80u8] + zeros((m - n - 9) as nat) + u64_be_bytes((n * 8) as u64) + zeros(
        (max_len - m) as nat,
    )
}

/// Pads `data` by the SHA-256 rule (a `0x80` byte, zero bytes, and the bit length
/// as eight big-endian bytes) and extends it with zeros to `max_sha_bytes` bytes.
/// Returns the padded bytes and the length of the SHA-256 message, a multiple of 64.
pub fn sha256_pad(data: Vec<u8>, max_sha_bytes: usize) -> (r: (Vec<u8>, usize))
    requires
        data@.len() < 0x1000_0000_0000_0000,
        sha_message_len(data@.len()) <= max_sha_bytes,
        (max_sha_bytes - sha_message_len(data@.len())) % 64 == 0,
    ensures
        r.1 == sha_message_len(data@.len()),
        r.1 % 64 == 0,
        r.0@ == sha256_padded(data@, max_sha_bytes as nat),
        r.0@.len() == max_sha_bytes,
{
    let ghost d = data@;
    let n: usize = data.len();
    let length_bits: u64 = (n as u64) * 8;
    let length_in_bytes = int64_to_bytes(length_bits);
    let mut data = data;
    data.push(0x80);
    while (data.len() + 8) % 64 != 0
        invariant
            n < 0x1000_0000_0000_0000,
            sha_message_len(n as nat) <= max_sha_bytes,
            n + 1 <= data@.len() <= sha_message_len(n as nat) - 8,
            data@ == d + seq![0x80u8] + zeros((data@.len() - n - 1) as nat),
        decreases sha_message_len(n as nat) - data@.len(),
    {
        proof {
            let m = sha_message_len(n as nat);
            let l = data@.len();
            assert(l + 8 < m) by (nonlinear_arith)
                requires m == ((n + 9 + 63) / 64) * 64, (l + 8) % 64 != 0, l + 8 <= m;
        }
        data.push(0);
        assert(data@ =~= d + seq![0x80u8] + zeros((data@.len() - n - 1) as nat));
    }
    proof {
        let m = sha_message_len(n as nat);
        let l = data@.len();
        assert(l + 8 == m) by (nonlinear_arith)
            requires m == ((n + 9 + 63) / 64) * 64, (l + 8) % 64 == 0, l + 8 <= m, l >= n + 1;
    }
    let mut tail = length_in_bytes;
    data.append(&mut tail);
    let message_len: usize = data.len();
    assert(message_len == sha_message_len(n as nat));
    while data.len() < max_sha_bytes
        invariant
            message_len == sha_message_len(n as nat),
            message_len <= data@.len() <= max_sha_bytes,
            (max_sha_bytes - data@.len()) % 8 == 0,
            data@ == d + seq![0x80u8] + zeros((message_len - n - 9) as nat) + u64_be_bytes(
                length_bits,
            ) + zeros((data@.len() - message_len) as nat),
        decreases max_sha_bytes - data@.len(),
    {
        let mut eight = int64_to_bytes(0);
        assert(eight@ =~= zeros(8)) by {
            lemma_u64_be_bytes(0);
            assert(((0u64 >> 56u64) & 0xff) as u8 == 0
                && ((0u64 >> 48u64) & 0xff) as u8 == 0
                && ((0u64 >> 40u64) & 0xff) as u8 == 0
                && ((0u64 >> 32u64) & 0xff) as u8 == 0
                && ((0u64 >> 24u64) & 0xff) as u8 == 0
                && ((0u64 >> 16u64) & 0xff) as u8 == 0
                && ((0u64 >> 8u64) & 0xff) as u8 == 0
                && (0u64 & 0xff) as u8 == 0) by (bit_vector);
        }
        data.append(&mut eight);
        assert(data@ =~= d + seq![0x80u8] + zeros((message_len - n - 9) as nat) + u64_be_bytes(
            length_bits,
        ) + zeros((data@.len() - message_len) as nat));
    }
    (data, message_len)
}

/// For every byte string `d` and every `max_len` that is a multiple of 64 and
/// leaves room for the nine padding bytes, the padded buffer is `max_len` long,
/// and the eight length bytes that end the SHA-256 message read back as the bit
/// length of `d`.
pub proof fn lemma_sha256_pad_round_trip(d: Seq<u8>, max_len: nat)
    requires
        d.len() < 0x1000_0000_0000_0000,
        max_len % 64 == 0,
        max_len >= d.len() + 9,
    ensures
        sha_message_len(d.len()) <= max_len,
        (max_len - sha_message_len(d.len())) % 64 == 0,
        sha_message_len(d.len()) % 64 == 0,
        sha256_padded(d, max_len).len() == max_len,
        be_value(
            sha256_padded(d, max_len).subrange(
                sha_message_len(d.len()) - 8,
                sha_message_len(d.len()) as int,
            ),
        ) == d.len() * 8,
{
    let n = d.len();
    let m = sha_message_len(n);
    assert(m >= n + 9 && m < n + 9 + 64 && m % 64 == 0) by (nonlinear_arith)
        requires m == ((n + 9 + 63) / 64) * 64;
    assert(m <= max_len) by (nonlinear_arith)
        requires m == ((n + 9 + 63) / 64) * 64, max_len % 64 == 0, max_len >= n + 9;
    let p = sha256_padded(d, max_len);
    lemma_u64_be_bytes((n * 8) as u64);
    let head = d + seq![0x80u8] + zeros((m - n - 9) as nat);
    assert(p.subrange(m - 8, m as int) =~= u64_be_bytes((n * 8) as u64));
}

/// Why a padded body could not be split for a precomputed prefix hash.
#[derive(Debug, Clone, Copy, PartialEq, Eq)]
pub enum PartialShaError {
    /// The selector is not a valid regular expression.
    InvalidSelector,
    /// The selector does not occur in the body.
    SelectorNotFound,
    /// The split point lies past the SHA-256 message length.
    SelectorOutsideMessage,
    /// What remains after the split point is longer than allowed.
    RemainingBodyTooLong,
    /// What remains after the split point is not a whole number of 64-byte blocks.
    MisalignedPadding,
}

/// The text of an optional selector.
pub open spec fn selector_view(s: Option<String>) -> Option<Seq<char>> {
    match s {
        Some(p) => Some(p@),
        None => None,
    }
}

/// The length of the longest prefix of `b` that ends with `"\r\n"` (zero if none
/// does): the body text without its SHA-256 padding.
pub open spec fn crlf_prefix_len(b: Seq<u8>) -> nat
    decreases b.len(),
{
    if b.len() < 2 {
        0
    } else if b[b.len() - 2] == 13 && b[b.len() - 1] == 10 {
        b.len()
    } else {
        crlf_prefix_len(b.drop_last())
    }
}

/// Where the selector first matches in the body text (without its SHA-256
/// padding); zero without a selector.
pub open spec fn selector_index(body: Seq<u8>, selector: Option<Seq<char>>) -> Result<
    nat,
    PartialShaError,
> {
    match selector {
        None => Ok(0),
        Some(p) => if !regex_valid(p) {
            Err(PartialShaError::InvalidSelector)
        } else {
            match regex_first_match(p, body.subrange(0, crlf_prefix_len(body) as int)) {
                None => Err(PartialShaError::SelectorNotFound),
                Some(m) => Ok(m.0 as nat),
            }
        },
    }
}

/// The split of a padded body at `index` rounded down to a multiple of 64: the
/// prefix to hash in advance, the rest zero-extended to `max_remaining` bytes, and
/// the length of the rest of the SHA-256 message.
pub open spec fn split_at_index(body: Seq<u8>, body_length: nat, index: nat, max_remaining: nat) -> Result<
    (Seq<u8>, Seq<u8>, nat),
    PartialShaError,
> {
    let cut = (index / 64) * 64;
    if cut > body.len() || cut > body_length {
        Err(PartialShaError::SelectorOutsideMessage)
    } else if body_length - cut > max_remaining {
        Err(PartialShaError::RemainingBodyTooLong)
    } else if (body.len() - cut) % 64 != 0 {
        Err(PartialShaError::MisalignedPadding)
    } else {
        let rest = body.subrange(cut as int, body.len() as int);
        let rest_len = rest.len();
        Ok(
            (
                body.subrange(0, cut as int),
                if rest_len < max_remaining {
                    rest + zeros((max_remaining - rest_len) as nat)
                } else {
                    rest
                },
                (body_length - cut) as nat,
            ),
        )
    }
}

/// The SHA-256 state, as eight big-endian 32-bit words, after compressing the
/// whole 64-byte blocks of `prefix` from SHA-256's initial state.
pub uninterp spec fn sha256_midstate_of(prefix: Seq<u8>) -> Seq<u8>;

/// Relies on sha2::compress256, which applies the SHA-256 compression function
/// to each 64-byte block in turn; the state starts from SHA-256's initial hash
/// value (FIPS 180-4, 5.3.3) and its words are written big-endian.
#[verifier::external_body]
fn sha256_midstate(prefix: &[u8]) -> (r: Vec<u8>)
    requires
        prefix@.len() % 64 == 0,
    ensures
        r@ == sha256_midstate_of(prefix@),
        r@.len() == 32,
{
    let mut state: [u32; 8] = [
        0x6a09e667, 0xbb67ae85, 0x3c6ef372, 0xa54ff53a, 0x510e527f, 0x9b05688c, 0x1f83d9ab, 0x5be0cd19,
    ];
    let blocks: Vec<_> = prefix.chunks(64).map(sha2::digest::generic_array::GenericArray::clone_from_slice).collect();
    sha2::compress256(&mut state, &blocks);
    state.iter().flat_map(|w| w.to_be_bytes()).collect()
}

/// The precomputed SHA-256 state of the prefix, the rest of the body
/// zero-extended to `max_remaining` bytes, and the length of the rest of the
/// SHA-256 message.
pub open spec fn partial_sha_split(
    body: Seq<u8>,
    body_length: nat,
    selector: Option<Seq<char>>,
    max_remaining: nat,
) -> Result<(Seq<u8>, Seq<u8>, nat), PartialShaError> {
    match selector_index(body, selector) {
        Err(e) => Err(e),
        Ok(i) => match split_at_index(body, body_length, i, max_remaining) {
            Err(e) => Err(e),
            Ok(t) => Ok((sha256_midstate_of(t.0), t.1, t.2)),
        },
    }
}

fn crlf_prefix_end(b: &Vec<u8>) -> (r: usize)
    ensures
        r == crlf_prefix_len(b@),
        r <= b@.len(),
{
    let mut k: usize = b.len();
    assert(b@.subrange(0, k as int) =~= b@);
    while k >= 2 && !(b[k - 2] == 13 && b[k - 1] == 10)
        invariant
            k <= b@.len(),
            crlf_prefix_len(b@) == crlf_prefix_len(b@.subrange(0, k as int)),
        decreases k,
    {
        assert(b@.subrange(0, k as int).drop_last() =~= b@.subrange(0, k - 1));
        k = k - 1;
    }
    if k < 2 {
        0
    } else {
        k
    }
}

fn copy_range(b: &Vec<u8>, from: usize, to: usize) -> (r: Vec<u8>)
    requires
        from <= to <= b@.len(),
    ensures
        r@ == b@.subrange(from as int, to as int),
{
    let mut r: Vec<u8> = Vec::new();
    let mut i: usize = from;
    while i < to
        invariant
            from <= i <= to <= b@.len(),
            r@ == b@.subrange(from as int, i as int),
        decreases to - i,
    {
        r.push(b[i]);
        i = i + 1;
        assert(r@ =~= b@.subrange(from as int, i as int));
    }
    r
}

/// Splits a SHA-256 padded body at `index` rounded down to a 64-byte boundary:
/// the prefix to hash in advance, the rest zero-extended to
/// `max_remaining_body_length` bytes, and the length of the rest of the message.
pub fn split_at_selector(
    body: Vec<u8>,
    body_length: usize,
    index: usize,
    max_remaining_body_length: usize,
) -> (r: Result<(Vec<u8>, Vec<u8>, usize), PartialShaError>)
    ensures
        match split_at_index(body@, body_length as nat, index as nat, max_remaining_body_length as nat) {
            Ok(t) => r matches Ok(x) && x.0@ == t.0 && x.1@ == t.1 && x.2 as nat == t.2,
            Err(e) => r == Err::<(Vec<u8>, Vec<u8>, usize), PartialShaError>(e),
        },
{
    let cut: usize = (index / 64) * 64;
    if cut > body.len() || cut > body_length {
        return Err(PartialShaError::SelectorOutsideMessage);
    }
    let remaining_length: usize = body_length - cut;
    if remaining_length > max_remaining_body_length {
        return Err(PartialShaError::RemainingBodyTooLong);
    }
    if (body.len() - cut) % 64 != 0 {
        return Err(PartialShaError::MisalignedPadding);
    }
    let prefix = copy_range(&body, 0, cut);
    let mut remaining = copy_range(&body, cut, body.len());
    let ghost rest = remaining@;
    while remaining.len() < max_remaining_body_length
        invariant
            rest.len() <= remaining@.len(),
            rest.len() <= remaining@.len() <= max_remaining_body_length || remaining@ == rest,
            remaining@ == rest + zeros((remaining@.len() - rest.len()) as nat),
        decreases max_remaining_body_length - remaining@.len(),
    {
        remaining.push(0);
        assert(remaining@ =~= rest + zeros((remaining@.len() - rest.len()) as nat));
    }
    assert(rest.len() >= max_remaining_body_length ==> remaining@ =~= rest);
    Ok((prefix, remaining, remaining_length))
}

/// Splits a SHA-256 padded body where a selector first matches (rounded down to a
/// 64-byte boundary), and hashes the part before it in advance: returns the
/// SHA-256 state after that part, the rest of the body zero-extended, and the
/// length of the rest of the message. Without a selector nothing is hashed in
/// advance.
pub fn generate_partial_sha(
    body: Vec<u8>,
    body_length: usize,
    selector_regex: Option<String>,
    max_remaining_body_length: usize,
) -> (r: Result<(Vec<u8>, Vec<u8>, usize), PartialShaError>)
    ensures
        r is Ok <==> partial_sha_split(
            body@,
            body_length as nat,
            selector_view(selector_regex),
            max_remaining_body_length as nat,
        ) is Ok,
        r matches Err(e) ==> partial_sha_split(
            body@,
            body_length as nat,
            selector_view(selector_regex),
            max_remaining_body_length as nat,
        ) == Err::<(Seq<u8>, Seq<u8>, nat), PartialShaError>(e),
        r matches Ok(t) ==> partial_sha_split(
            body@,
            body_length as nat,
            selector_view(selector_regex),
            max_remaining_body_length as nat,
        ) == Ok::<(Seq<u8>, Seq<u8>, nat), PartialShaError>((t.0@, t.1@, t.2 as nat)),
{
    let mut selector_index: usize = 0;
    match &selector_regex {
        None => {},
        Some(selector) => {
            let text_end = crlf_prefix_end(&body);
            let text = copy_range(&body, 0, text_end);
            match regex_find(selector.as_str(), text.as_slice()) {
                Err(_) => {
                    return Err(PartialShaError::InvalidSelector);
                },
                Ok(None) => {
                    return Err(PartialShaError::SelectorNotFound);
                },
                Ok(Some(m)) => {
                    selector_index = m.0;
                },
            }
        },
    }
    match split_at_selector(body, body_length, selector_index, max_remaining_body_length) {
        Ok((prefix, rest, rest_len)) => {
            assert(prefix@.len() % 64 == 0) by (nonlinear_arith)
                requires prefix@.len() == (selector_index / 64) * 64;
            Ok((sha256_midstate(prefix.as_slice()), rest, rest_len))
        },
        Err(e) => Err(e),
    }
}

} // verus!
