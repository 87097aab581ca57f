//! Elements of the scalar field of the BN254 curve, and their hexadecimal form.
use crate::bits::{chunk_of, le_bits_chunk, le_value, lemma_chunk_split, lemma_chunk_whole};
use crate::converters::{be_value, lemma_be_le_reverse, reversed};
use vstd::arithmetic::power2::{lemma2_to64, lemma2_to64_rest, lemma_pow2_adds, lemma_pow2_pos, pow2};
use vstd::prelude::*;
use vstd::string::StringExecFns;

verus! {

/// The order of the scalar field of the BN254 curve.
pub open spec fn field_modulus() -> nat {
    0x30644e72e131a029b85045b68181585d * 0x1_0000_0000_0000_0000 * 0x1_0000_0000_0000_0000
        + 0x2833e84879b9709143e1f593f0000001
}

/// `2^64`, `2^128`, `2^192` and `2^256` as numbers, and the modulus between
/// `2^248` and `2^254`.
pub proof fn lemma_pow2_limbs()
    ensures
        pow2(8) == 256,
        pow2(64) == 0x1_0000_0000_0000_0000,
        pow2(128) == 0x1_0000_0000_0000_0000 * 0x1_0000_0000_0000_0000,
        pow2(192) == 0x1_0000_0000_0000_0000 * 0x1_0000_0000_0000_0000 * 0x1_0000_0000_0000_0000,
        pow2(256) == 0x1_0000_0000_0000_0000 * 0x1_0000_0000_0000_0000 * 0x1_0000_0000_0000_0000
            * 0x1_0000_0000_0000_0000,
        field_modulus() < pow2(254),
        pow2(248) < field_modulus(),
{
    let k: nat = 0x1_0000_0000_0000_0000;
    lemma2_to64();
    lemma2_to64_rest();
    lemma_pow2_adds(64, 64);
    lemma_pow2_adds(128, 64);
    lemma_pow2_adds(128, 128);
    lemma_pow2_adds(192, 56);
    lemma_pow2_adds(192, 62);
    assert(pow2(128) == k * k);
    assert(pow2(192) == k * k * k) by (nonlinear_arith)
        requires pow2(192) == pow2(128) * pow2(64), pow2(128) == k * k, pow2(64) == k;
    assert(pow2(256) == k * k * k * k) by (nonlinear_arith)
        requires pow2(256) == pow2(128) * pow2(128), pow2(128) == k * k;
    assert(pow2(248) == k * k * k * 0x100_0000_0000_0000) by (nonlinear_arith)
        requires pow2(248) == pow2(192) * pow2(56), pow2(192) == k * k * k, pow2(56) == 0x100_0000_0000_0000;
    assert(pow2(254) == k * k * k * 0x4000_0000_0000_0000) by (nonlinear_arith)
        requires pow2(254) == pow2(192) * pow2(62), pow2(192) == k * k * k, pow2(62) == 0x4000_0000_0000_0000;
    assert(field_modulus() < k * k * k * 0x4000_0000_0000_0000) by (nonlinear_arith)
        requires k == 0x1_0000_0000_0000_0000;
    assert(k * k * k * 0x100_0000_0000_0000 < field_modulus()) by (nonlinear_arith)
        requires k == 0x1_0000_0000_0000_0000;
}

/// An element of the scalar field of the BN254 curve, as four 64-bit limbs, the
/// least significant first.
#[derive(Debug, Clone, Copy, PartialEq, Eq)]
pub struct FieldElement {
    pub limbs: [u64; 4],
}

impl FieldElement {
    /// The number that the limbs stand for.
    pub open spec fn value(&self) -> nat {
        self.limbs[0] as nat + pow2(64) * (self.limbs[1] as nat) + pow2(128) * (
        self.limbs[2] as nat) + pow2(192) * (self.limbs[3] as nat)
    }

    /// The limbs stand for a number below the field's modulus.
    pub open spec fn wf(&self) -> bool {
        self.value() < field_modulus()
    }

    /// The element `0`.
    pub fn zero() -> (r: Self)
        ensures
            r.value() == 0,
            r.wf(),
    {
        let r = FieldElement { limbs: [0u64, 0u64, 0u64, 0u64] };
        proof {
            lemma_pow2_limbs();
            assert(r.limbs[0] == 0 && r.limbs[1] == 0 && r.limbs[2] == 0 && r.limbs[3] == 0);
        }
        r
    }

    /// The element `1`.
    pub fn one() -> (r: Self)
        ensures
            r.value() == 1,
            r.wf(),
    {
        let r = FieldElement { limbs: [1u64, 0u64, 0u64, 0u64] };
        proof {
            lemma_pow2_limbs();
            assert(r.limbs[0] == 1 && r.limbs[1] == 0 && r.limbs[2] == 0 && r.limbs[3] == 0);
        }
        r
    }
}

/// Why a hexadecimal string is not a field element.
#[derive(Debug, Clone, Copy, PartialEq, Eq)]
pub enum FieldError {
    /// The string does not start with `0x`.
    MissingPrefix,
    /// What follows `0x` is not an even number of hex digits.
    InvalidHex,
    /// The digits do not make 32 bytes.
    WrongLength,
    /// The value is not below the field's modulus.
    NotInField,
}

/// The value of a hexadecimal digit of either case.
pub open spec fn hex_digit_value(c: char) -> Option<nat> {
    let u = c as u32;
    if 48 <= u <= 57 {
        Some((u - 48) as nat)
    } else if 97 <= u <= 102 {
        Some((u - 87) as nat)
    } else if 65 <= u <= 70 {
        Some((u - 55) as nat)
    } else {
        None
    }
}

/// An even number of hexadecimal digits.
pub open spec fn is_hex_string(s: Seq<char>) -> bool {
    s.len() % 2 == 0 && forall|i: int| 0 <= i < s.len() ==> (#[trigger] hex_digit_value(s[i])) is Some
}

/// The bytes that pairs of hexadecimal digits stand for.
pub open spec fn hex_decode(s: Seq<char>) -> Option<Seq<u8>> {
    if is_hex_string(s) {
        Some(
            Seq::new(
                s.len() / 2,
                |i: int|
                    (16 * hex_digit_value(s[2 * i]).unwrap() + hex_digit_value(
                        s[2 * i + 1],
                    ).unwrap()) as u8,
            ),
        )
    } else {
        None
    }
}

/// The lowercase hexadecimal digit of `d`.
pub open spec fn hex_char(d: nat) -> char {
    if d < 10 {
        (d + 48) as char
    } else {
        (d + 87) as char
    }
}

/// Bytes written as lowercase hexadecimal, two digits each.
pub open spec fn hex_lower(b: Seq<u8>) -> Seq<char> {
    Seq::new(
        2 * b.len(),
        |i: int|
            if i % 2 == 0 {
                hex_char(b[i / 2] as nat / 16)
            } else {
                hex_char(b[i / 2] as nat % 16)
            },
    )
}

/// The `n` big-endian bytes of the bits of `v` from bit `start` on.
pub open spec fn be_bytes_from(v: nat, start: nat, n: nat) -> Seq<u8> {
    Seq::new(n, |i: int| chunk_of(v, (start + 8 * (n - 1 - i)) as nat, 8) as u8)
}

/// The hexadecimal form of a field element: `0x` and 64 lowercase digits.
pub open spec fn field_hex(v: nat) -> Seq<char> {
    seq!['0', 'x'] + hex_lower(be_bytes_from(v, 0, 32))
}

/// The field element that a `0x`-prefixed big-endian hexadecimal string stands for.
pub open spec fn hex_to_field_spec(s: Seq<char>) -> Result<nat, FieldError> {
    if !(s.len() >= 2 && s[0] == '0' && s[1] == 'x') {
        Err(FieldError::MissingPrefix)
    } else {
        match hex_decode(s.subrange(2, s.len() as int)) {
            None => Err(FieldError::InvalidHex),
            Some(b) => if b.len() != 32 {
                Err(FieldError::WrongLength)
            } else if be_value(b) >= field_modulus() {
                Err(FieldError::NotInField)
            } else {
                Ok(be_value(b))
            },
        }
    }
}

/// Relies on str::strip_prefix: the rest of the string after a leading `0x`.
#[verifier::external_body]
pub(crate) fn strip_hex_prefix(s: &str) -> (r: Option<&str>)
    ensures
        r is Some <==> (s@.len() >= 2 && s@[0] == '0' && s@[1] == 'x'),
        r matches Some(rest) ==> rest@ == s@.subrange(2, s@.len() as int),
{
    s.strip_prefix("0x")
}

/// Relies on hex::decode: each pair of hex digits of either case gives one byte;
/// an odd length or any other character is refused.
#[verifier::external_body]
pub(crate) fn decode_hex(s: &str) -> (r: Option<Vec<u8>>)
    ensures
        match r {
            Some(b) => hex_decode(s@) == Some(b@),
            None => hex_decode(s@) is None,
        },
{
    hex::decode(s).ok()
}

/// Relies on hex::encode: each byte as two lowercase hex digits.
#[verifier::external_body]
pub(crate) fn encode_hex(b: &[u8]) -> (r: String)
    ensures
        r@ == hex_lower(b@),
{
    hex::encode(b)
}

/// `0x` followed by the bytes in lowercase hex.
pub fn bytes_to_hex(bytes: &[u8]) -> (r: String)
    ensures
        r@ == seq!['0', 'x'] + hex_lower(bytes@),
{
    let mut r = String::new();
    crate::converters::push_char(&mut r, '0');
    crate::converters::push_char(&mut r, 'x');
    let h = encode_hex(bytes);
    r.append(h.as_str());
    r
}

/// `0x` followed by the 32 bytes in lowercase hex.
pub fn bytes32_to_hex(bytes: &[u8; 32]) -> (r: String)
    ensures
        r@ == seq!['0', 'x'] + hex_lower(bytes@),
{
    bytes_to_hex(bytes.as_slice())
}

/// The field element that 32 big-endian bytes stand for; a value at or above the
/// modulus is refused.
pub fn bytes32_to_fr(bytes32: &[u8; 32]) -> (r: Result<FieldElement, FieldError>)
    ensures
        r is Ok <==> be_value(bytes32@) < field_modulus(),
        r matches Ok(f) ==> f.wf() && f.value() == be_value(bytes32@),
        r matches Err(e) ==> e == FieldError::NotInField,
{
    let mut be: Vec<u8> = Vec::new();
    let mut i: usize = 0;
    while i < 32
        invariant
            i <= 32,
            be@ == bytes32@.subrange(0, i as int),
        decreases 32 - i,
    {
        be.push(bytes32[i]);
        i = i + 1;
        assert(be@ =~= bytes32@.subrange(0, i as int));
    }
    assert(be@ =~= bytes32@);
    let le = reversed(&be);
    proof {
        lemma_be_le_reverse(be@);
    }
    if !fr_bytes_canonical(&le) {
        return Err(FieldError::NotInField);
    }
    let f = field_from_bits(&le, 0, 256);
    proof {
        lemma_pow2_limbs();
        lemma_chunk_whole(le_value(le@), 256);
    }
    Ok(f)
}

/// The 32 big-endian bytes of a field element.
pub fn fr_to_bytes32(fr: &FieldElement) -> (r: [u8; 32])
    requires
        fr.wf(),
    ensures
        be_value(r@) == fr.value(),
{
    let hex = field_to_hex(fr);
    let digits = match strip_hex_prefix(hex.as_str()) {
        Some(d) => d,
        None => {
            proof {
                assert(false);
            }
            return [0u8; 32];
        },
    };
    proof {
        let bb = be_bytes_from(fr.value(), 0, 32);
        assert(digits@ =~= hex_lower(bb));
        lemma_hex_round_trip(bb);
        lemma_be_bytes_from(fr.value(), 0, 32);
        lemma_pow2_limbs();
        lemma_chunk_whole(fr.value(), 256);
    }
    let bytes = match decode_hex(digits) {
        Some(b) => b,
        None => {
            proof {
                assert(false);
            }
            return [0u8; 32];
        },
    };
    let mut r = [0u8; 32];
    let mut i: usize = 0;
    while i < 32
        invariant
            i <= 32,
            bytes@.len() == 32,
            forall|j: int| 0 <= j < i ==> r@[j] == bytes@[j],
        decreases 32 - i,
    {
        r[i] = bytes[i];
        i = i + 1;
    }
    assert(r@ =~= bytes@);
    r
}

/// Relies on halo2curves' bn256::Fr::from_bytes, which accepts 32 little-endian
/// bytes exactly when their value is below the modulus.
#[verifier::external_body]
fn fr_bytes_canonical(le: &Vec<u8>) -> (r: bool)
    requires
        le@.len() == 32,
    ensures
        r == (le_value(le@) < field_modulus()),
{
    let a: [u8; 32] = le.as_slice().try_into().unwrap();
    bool::from(halo2curves::bn256::Fr::from_bytes(&a).is_some())
}

/// Relies on halo2curves' bn256::Fr::from_raw, which takes the little-endian
/// limbs of a value below the modulus, and on its Debug format: `0x`, then the
/// value as 64 lowercase hex digits, most significant first.
#[verifier::external_body]
fn fr_debug_string(limbs: [u64; 4]) -> (r: String)
    requires
        (FieldElement { limbs }).wf(),
    ensures
        r@ == field_hex((FieldElement { limbs }).value()),
{
    format!("{:?}", halo2curves::bn256::Fr::from_raw(limbs))
}

proof fn lemma_chunk_empty(n: nat, start: nat)
    ensures
        chunk_of(n, start, 0) == 0,
{
    lemma2_to64();
}

/// The field element whose value is the `width` bits of the little-endian value
/// of `bytes` that start at bit `start`.
pub(crate) fn field_from_bits(bytes: &Vec<u8>, start: usize, width: usize) -> (r: FieldElement)
    requires
        width <= 256,
        start + 256 <= usize::MAX,
    ensures
        r.value() == chunk_of(le_value(bytes@), start as nat, width as nat),
{
    let ghost n = le_value(bytes@);
    let w0: usize = if width < 64 { width } else { 64 };
    let w1: usize = if width < 64 { 0 } else if width < 128 { width - 64 } else { 64 };
    let w2: usize = if width < 128 { 0 } else if width < 192 { width - 128 } else { 64 };
    let w3: usize = if width < 192 { 0 } else { width - 192 };
    let c0 = le_bits_chunk(bytes, start, w0);
    let c1 = le_bits_chunk(bytes, start + 64, w1);
    let c2 = le_bits_chunk(bytes, start + 128, w2);
    let c3 = le_bits_chunk(bytes, start + 192, w3);
    proof {
        lemma_pow2_limbs();
        lemma_pow2_pos(w0 as nat);
        if w0 < 64 {
            vstd::arithmetic::power2::lemma_pow2_strictly_increases(w0 as nat, 64);
        }
        lemma_pow2_pos(w1 as nat);
        lemma_pow2_pos(w2 as nat);
        lemma_pow2_pos(w3 as nat);
        if w1 < 64 {
            vstd::arithmetic::power2::lemma_pow2_strictly_increases(w1 as nat, 64);
        }
        if w2 < 64 {
            vstd::arithmetic::power2::lemma_pow2_strictly_increases(w2 as nat, 64);
        }
        if w3 < 64 {
            vstd::arithmetic::power2::lemma_pow2_strictly_increases(w3 as nat, 64);
        }
        let s = start as nat;
        let w = width as nat;
        if w <= 64 {
            lemma_chunk_split(n, s, w, 0);
            lemma_chunk_empty(n, s + 64);
            lemma_chunk_empty(n, s + 128);
            lemma_chunk_empty(n, s + 192);
        } else {
            lemma_chunk_split(n, s, 64, (w - 64) as nat);
            if w <= 128 {
                lemma_chunk_empty(n, s + 128);
                lemma_chunk_empty(n, s + 192);
            } else {
                lemma_chunk_split(n, s + 64, 64, (w - 128) as nat);
                if w <= 192 {
                    lemma_chunk_empty(n, s + 192);
                } else {
                    lemma_chunk_split(n, s + 128, 64, (w - 192) as nat);
                }
            }
        }
    }
    let r = FieldElement { limbs: [c0 as u64, c1 as u64, c2 as u64, c3 as u64] };
    proof {
        assert(r.limbs[0] as nat == c0 as nat && r.limbs[1] as nat == c1 as nat && r.limbs[2] as nat
            == c2 as nat && r.limbs[3] as nat == c3 as nat);
        let s = start as nat;
        let w = width as nat;
        if w <= 64 {
            assert(c1 == 0 && c2 == 0 && c3 == 0);
            assert(r.value() == c0 as nat);
        } else if w <= 128 {
            assert(c2 == 0 && c3 == 0);
            assert(chunk_of(n, s + 64, (w - 64) as nat) == c1);
        } else if w <= 192 {
            assert(c3 == 0);
            assert(chunk_of(n, s + 128, (w - 128) as nat) == c2);
            assert(chunk_of(n, s + 64, (w - 64) as nat) == c1 + pow2(64) * c2);
            let k = pow2(64);
            assert(c0 + k * (c1 + k * c2) == c0 + k * c1 + (k * k) * c2) by (nonlinear_arith);
        } else {
            assert(chunk_of(n, s + 192, (w - 192) as nat) == c3);
            assert(chunk_of(n, s + 128, (w - 128) as nat) == c2 + pow2(64) * c3);
            assert(chunk_of(n, s + 64, (w - 64) as nat) == c1 + pow2(64) * (c2 + pow2(64) * c3));
            assert(chunk_of(n, s, w) == c0 + pow2(64) * (c1 + pow2(64) * (c2 + pow2(64) * c3)));
            let k = pow2(64);
            assert(c0 + k * (c1 + k * (c2 + k * c3)) == c0 + k * c1 + (k * k) * c2 + (k * k * k) * c3)
                by (nonlinear_arith);
        }
    }
    r
}

pub proof fn lemma_be_bytes_from(v: nat, start: nat, n: nat)
    ensures
        be_value(be_bytes_from(v, start, n)) == chunk_of(v, start, 8 * n),
    decreases n,
{
    lemma_pow2_limbs();
    if n == 0 {
        lemma_chunk_empty(v, start);
    } else {
        let m = (n - 1) as nat;
        let b = be_bytes_from(v, start, n);
        lemma_be_bytes_from(v, start + 8, m);
        assert(b.drop_last() =~= be_bytes_from(v, start + 8, m));
        lemma_chunk_split(v, start, 8, 8 * m);
        vstd::arithmetic::div_mod::lemma_mod_bound((v / pow2(start)) as int, 256);
        assert(b.last() as nat == chunk_of(v, start, 8));
    }
}

pub proof fn lemma_hex_round_trip(b: Seq<u8>)
    ensures
        hex_decode(hex_lower(b)) == Some(b),
{
    let h = hex_lower(b);
    assert forall|i: int| 0 <= i < h.len() implies (#[trigger] hex_digit_value(h[i])) is Some by {
        let x = b[i / 2] as nat;
        assert(x / 16 < 16 && x % 16 < 16);
    }
    assert(is_hex_string(h));
    let d = hex_decode(h).unwrap();
    assert forall|i: int| 0 <= i < b.len() implies d[i] == b[i] by {
        let x = b[i] as nat;
        assert((2 * i) / 2 == i && (2 * i + 1) / 2 == i && (2 * i) % 2 == 0 && (2 * i + 1) % 2 == 1);
        assert(hex_digit_value(hex_char(x / 16)) == Some(x / 16));
        assert(hex_digit_value(hex_char(x % 16)) == Some(x % 16));
        assert(16 * (x / 16) + x % 16 == x);
    }
    assert(d =~= b);
}

/// For every value `v` below the field's modulus, reading back the hexadecimal
/// form of `v` gives `v`.
pub proof fn lemma_field_hex_round_trip(v: nat)
    requires
        v < field_modulus(),
    ensures
        hex_to_field_spec(field_hex(v)) == Ok::<nat, FieldError>(v),
{
    lemma_pow2_limbs();
    let s = field_hex(v);
    let bb = be_bytes_from(v, 0, 32);
    assert(s.subrange(2, s.len() as int) =~= hex_lower(bb));
    lemma_hex_round_trip(bb);
    lemma_be_bytes_from(v, 0, 32);
    lemma_chunk_whole(v, 256);
}

/// Converts a `0x`-prefixed big-endian hexadecimal string of 32 bytes to a field
/// element; a value at or above the modulus is refused.
pub fn hex_to_field(input_hex: &str) -> (r: Result<FieldElement, FieldError>)
    ensures
        r is Ok <==> hex_to_field_spec(input_hex@) is Ok,
        r matches Ok(f) ==> f.wf() && hex_to_field_spec(input_hex@) == Ok::<nat, FieldError>(
            f.value(),
        ),
        r matches Err(e) ==> hex_to_field_spec(input_hex@) == Err::<nat, FieldError>(e),
{
    let digits = match strip_hex_prefix(input_hex) {
        Some(rest) => rest,
        None => {
            return Err(FieldError::MissingPrefix);
        },
    };
    let be = match decode_hex(digits) {
        Some(b) => b,
        None => {
            return Err(FieldError::InvalidHex);
        },
    };
    if be.len() != 32 {
        return Err(FieldError::WrongLength);
    }
    let le = reversed(&be);
    proof {
        lemma_be_le_reverse(be@);
    }
    if !fr_bytes_canonical(&le) {
        return Err(FieldError::NotInField);
    }
    let f = field_from_bits(&le, 0, 256);
    proof {
        lemma_pow2_limbs();
        lemma_chunk_whole(le_value(le@), 256);
    }
    Ok(f)
}

/// The hexadecimal form of a field element: `0x` and 64 lowercase digits, most
/// significant first.
pub fn field_to_hex(field: &FieldElement) -> (r: String)
    requires
        field.wf(),
    ensures
        r@ == field_hex(field.value()),
{
    fr_debug_string(field.limbs)
}

/// Why a hexadecimal string is not a 256-bit integer.
#[derive(Debug, Clone, Copy, PartialEq, Eq)]
pub enum HexError {
    /// The string does not start with `0x`.
    MissingPrefix,
    /// What follows `0x` is not an even number of hex digits.
    InvalidHex,
    /// The digits do not make 32 bytes.
    WrongLength,
}

/// The 256-bit integer that `0x` and 64 hex digits stand for, most significant first.
pub fn hex_to_u256(hex: &str) -> (r: Result<crate::command_templates::U256, HexError>)
    ensures
        !(hex@.len() >= 2 && hex@[0] == '0' && hex@[1] == 'x') ==> r == Err::<
            crate::command_templates::U256,
            HexError,
        >(HexError::MissingPrefix),
        hex@.len() >= 2 && hex@[0] == '0' && hex@[1] == 'x' ==> match hex_decode(
            hex@.subrange(2, hex@.len() as int),
        ) {
            None => r == Err::<crate::command_templates::U256, HexError>(HexError::InvalidHex),
            Some(b) => if b.len() != 32 {
                r == Err::<crate::command_templates::U256, HexError>(HexError::WrongLength)
            } else {
                r matches Ok(u) && u.value() == be_value(b)
            },
        },
{
    let digits = match strip_hex_prefix(hex) {
        Some(d) => d,
        None => {
            return Err(HexError::MissingPrefix);
        },
    };
    let be = match decode_hex(digits) {
        Some(b) => b,
        None => {
            return Err(HexError::InvalidHex);
        },
    };
    if be.len() != 32 {
        return Err(HexError::WrongLength);
    }
    let le = reversed(&be);
    proof {
        lemma_be_le_reverse(be@);
        lemma_pow2_limbs();
        vstd::arithmetic::power2::lemma_pow2_pos(256);
        lemma_le_value_bound(le@);
        lemma_chunk_whole(le_value(le@), 256);
    }
    let f = field_from_bits(&le, 0, 256);
    Ok(crate::command_templates::U256 { limbs: f.limbs })
}

/// The little-endian value of `s` is below `256^len`.
pub proof fn lemma_le_value_bound(s: Seq<u8>)
    ensures
        le_value(s) < pow2((8 * s.len()) as nat),
    decreases s.len(),
{
    lemma2_to64();
    if s.len() > 0 {
        lemma_le_value_bound(s.drop_first());
        lemma_pow2_adds(8, (8 * (s.len() - 1)) as nat);
        assert(8 * s.len() == 8 + 8 * (s.len() - 1));
        let r = le_value(s.drop_first());
        let p = pow2((8 * (s.len() - 1)) as nat);
        assert(s[0] as nat + 256 * r < 256 * p) by (nonlinear_arith)
            requires s[0] < 256, r < p;
    }
}

/// The field element whose value is `w`.
pub fn field_from_u128(w: u128) -> (r: FieldElement)
    ensures
        r.value() == w as nat,
        r.wf(),
{
    let lo: u64 = (w & 0xffff_ffff_ffff_ffff) as u64;
    let hi: u64 = (w >> 64u128) as u64;
    assert(w == lo as u128 + (hi as u128) * 0x1_0000_0000_0000_0000) by (bit_vector)
        requires
            lo == (w & 0xffff_ffff_ffff_ffff) as u64,
            hi == (w >> 64u128) as u64,
    ;
    let r = FieldElement { limbs: [lo, hi, 0u64, 0u64] };
    proof {
        lemma_pow2_limbs();
        assert(r.limbs[0] == lo && r.limbs[1] == hi && r.limbs[2] == 0 && r.limbs[3] == 0);
        assert(w as nat <= 0xffff_ffff_ffff_ffff_ffff_ffff_ffff_ffff);
    }
    r
}

/// Relies on halo2curves' bn256::Fr::from_raw, on `+` for Fr, which adds modulo
/// the field's order, and on Fr::to_bytes, which gives the canonical value in
/// little-endian order.
#[verifier::external_body]
pub(crate) fn fr_add(a: &FieldElement, b: &FieldElement) -> (r: FieldElement)
    requires
        a.wf(),
        b.wf(),
    ensures
        r.wf(),
        r.value() == (a.value() + b.value()) % field_modulus(),
{
    let s = halo2curves::bn256::Fr::from_raw(a.limbs) + halo2curves::bn256::Fr::from_raw(b.limbs);
    let v: Vec<u64> = s.to_bytes().chunks(8).map(|c| u64::from_le_bytes(c.try_into().unwrap())).collect();
    FieldElement { limbs: v.try_into().unwrap() }
}

/// Relies on halo2curves' bn256::Fr::from_raw, on `*` for Fr, which multiplies
/// modulo the field's order, and on Fr::to_bytes, which gives the canonical value
/// in little-endian order.
#[verifier::external_body]
pub(crate) fn fr_mul(a: &FieldElement, b: &FieldElement) -> (r: FieldElement)
    requires
        a.wf(),
        b.wf(),
    ensures
        r.wf(),
        r.value() == (a.value() * b.value()) % field_modulus(),
{
    let s = halo2curves::bn256::Fr::from_raw(a.limbs) * halo2curves::bn256::Fr::from_raw(b.limbs);
    let v: Vec<u64> = s.to_bytes().chunks(8).map(|c| u64::from_le_bytes(c.try_into().unwrap())).collect();
    FieldElement { limbs: v.try_into().unwrap() }
}

} // verus!
