//! Conversions between integers, byte strings and their decimal encodings.
use vstd::arithmetic::div_mod::{
    lemma_div_denominator, lemma_fundamental_div_mod, lemma_div_pos_is_pos,
};
use crate::bits::{chunk_of, le_bits_chunk, le_value, lemma_chunk_split};
use crate::field::{field_from_bits, field_from_u128, field_modulus, fr_add, fr_mul, lemma_pow2_limbs, FieldElement};
use vstd::arithmetic::div_mod::{lemma_mod_breakdown, lemma_small_mod};
use vstd::arithmetic::power2::{lemma_pow2_adds, lemma_pow2_pos, pow2};
use vstd::prelude::*;

verus! {

/// The big-endian value of a byte string.
pub open spec fn be_value(s: Seq<u8>) -> nat
    decreases s.len(),
{
    if s.len() == 0 {
        0
    } else {
        be_value(s.drop_last()) * 256 + s.last() as nat
    }
}

/// `10` raised to `n`.
pub open spec fn pow10(n: nat) -> nat
    decreases n,
{
    if n == 0 {
        1
    } else {
        10 * pow10((n - 1) as nat)
    }
}

/// The ASCII character of a decimal digit.
pub open spec fn digit_char(d: nat) -> char {
    (d + 48) as char
}

/// The shortest decimal writing of `n`, most significant digit first.
pub open spec fn dec_chars(n: nat) -> Seq<char>
    decreases n,
{
    if n < 10 {
        seq![digit_char(n)]
    } else {
        dec_chars(n / 10).push(digit_char(n % 10))
    }
}

/// The `k`-th decimal digit of `n`, counted from the least significant one.
pub open spec fn dec_digit(n: nat, k: nat) -> nat {
    (n / pow10(k)) % 10
}

/// The fractional digits of `uint / 10^decimal`, most significant first, without
/// the trailing zeros.
pub open spec fn fraction_chars(uint: nat, decimal: nat, lowest: nat) -> Seq<char> {
    Seq::new((decimal - lowest) as nat, |j: int| digit_char(dec_digit(uint, (decimal - 1 - j) as nat)))
}

/// Whether `uint / 10^decimal` has a non-zero digit after the point at position `k`
/// or above (counted from the least significant fractional digit).
pub open spec fn has_fraction_from(uint: nat, decimal: nat, k: nat) -> bool {
    exists|j: nat| k <= j < decimal && dec_digit(uint, j) != 0
}

/// `uint / 10^decimal` written in decimal: the integer part, then, where the
/// fraction is not zero, a point and the fraction without trailing zeros.
pub open spec fn decimal_string(uint: nat, decimal: nat) -> Seq<char> {
    if has_fraction_from(uint, decimal, 0) {
        let lowest = choose|z: nat|
            z < decimal && dec_digit(uint, z) != 0 && forall|j: nat| j < z ==> dec_digit(uint, j) == 0;
        dec_chars(uint / pow10(decimal)) + seq!['.'] + fraction_chars(uint, decimal, lowest)
    } else {
        dec_chars(uint / pow10(decimal))
    }
}

/// Relies on String::push: the character is appended.
#[verifier::external_body]
pub(crate) fn push_char(s: &mut String, c: char)
    ensures
        final(s)@ == old(s)@.push(c),
{
    s.push(c)
}

proof fn lemma_pow10_pos(n: nat)
    ensures
        pow10(n) >= 1,
    decreases n,
{
    if n > 0 {
        lemma_pow10_pos((n - 1) as nat);
    }
}

fn digit_to_char(d: u128) -> (c: char)
    requires
        d < 10,
    ensures
        c == digit_char(d as nat),
{
    let b: u8 = d as u8;
    (b + 48) as char
}

/// Writes `n` in decimal.
pub fn u128_to_decimal(n: u128) -> (r: String)
    ensures
        r@ == dec_chars(n as nat),
{
    let mut p: u128 = 1;
    let ghost mut k: nat = 0;
    while p <= n / 10
        invariant
            p == pow10(k),
            p <= n || p == 1,
            p >= 1,
        decreases n - p,
    {
        p = p * 10;
        proof {
            k = k + 1;
        }
    }
    assert(n / p < 10) by {
        lemma_fundamental_div_mod(n as int, 10);
        lemma_fundamental_div_mod(n as int, p as int);
        assert((n / 10) < p);
        assert(n < 10 * p) by (nonlinear_arith)
            requires n / 10 < p, n == 10 * (n / 10) + n % 10, n % 10 < 10;
        assert(n / p < 10) by (nonlinear_arith)
            requires n < 10 * p, p >= 1, n == p * (n / p) + n % p, n % p >= 0;
    }
    let mut s = String::new();
    push_char(&mut s, digit_to_char(n / p));
    assert(s@ =~= dec_chars((n / p) as nat));
    while p > 1
        invariant
            p == pow10(k),
            p <= n || p == 1,
            p >= 1,
            s@ == dec_chars((n / p) as nat),
        decreases p,
    {
        let q: u128 = p / 10;
        proof {
            assert(k > 0);
            lemma_pow10_pos((k - 1) as nat);
            assert(p == 10 * q);
            lemma_div_denominator(n as int, q as int, 10);
            assert((n / q) / 10 == n / p);
            assert(n / q >= 10) by (nonlinear_arith)
                requires p <= n, p == 10 * q, q >= 1;
            lemma_div_pos_is_pos(n as int, q as int);
        }
        push_char(&mut s, digit_to_char((n / q) % 10));
        proof {
            assert(dec_chars((n / q) as nat) == dec_chars(((n / q) / 10) as nat).push(
                digit_char(((n / q) % 10) as nat),
            ));
            k = (k - 1) as nat;
        }
        p = q;
    }
    assert(n / 1 == n);
    s
}


/// The eight big-endian bytes of a 64-bit integer.
pub open spec fn u64_be_bytes(x: u64) -> Seq<u8> {
    seq![
        ((x >> 56u64) & 0xff) as u8,
        ((x >> 48u64) & 0xff) as u8,
        ((x >> 40u64) & 0xff) as u8,
        ((x >> 32u64) & 0xff) as u8,
        ((x >> 24u64) & 0xff) as u8,
        ((x >> 16u64) & 0xff) as u8,
        ((x >> 8u64) & 0xff) as u8,
        (x & 0xff) as u8,
    ]
}

/// Reading back the eight big-endian bytes of `x` gives `x`.
pub proof fn lemma_u64_be_bytes(x: u64)
    ensures
        u64_be_bytes(x).len() == 8,
        be_value(u64_be_bytes(x)) == x as nat,
{
    let s = u64_be_bytes(x);
    let b0 = s[0];
    let b1 = s[1];
    let b2 = s[2];
    let b3 = s[3];
    let b4 = s[4];
    let b5 = s[5];
    let b6 = s[6];
    let b7 = s[7];
    assert(x == (((((((b0 as u64) * 256 + b1 as u64) * 256 + b2 as u64) * 256 + b3 as u64) * 256
        + b4 as u64) * 256 + b5 as u64) * 256 + b6 as u64) * 256 + b7 as u64) by (bit_vector)
        requires
            b0 == ((x >> 56u64) & 0xff) as u8,
            b1 == ((x >> 48u64) & 0xff) as u8,
            b2 == ((x >> 40u64) & 0xff) as u8,
            b3 == ((x >> 32u64) & 0xff) as u8,
            b4 == ((x >> 24u64) & 0xff) as u8,
            b5 == ((x >> 16u64) & 0xff) as u8,
            b6 == ((x >> 8u64) & 0xff) as u8,
            b7 == (x & 0xff) as u8,
    ;
    reveal_with_fuel(be_value, 9);
    assert(s.drop_last() =~= seq![b0, b1, b2, b3, b4, b5, b6]);
    assert(s.drop_last().drop_last() =~= seq![b0, b1, b2, b3, b4, b5]);
    assert(s.drop_last().drop_last().drop_last() =~= seq![b0, b1, b2, b3, b4]);
    assert(s.drop_last().drop_last().drop_last().drop_last() =~= seq![b0, b1, b2, b3]);
    assert(s.drop_last().drop_last().drop_last().drop_last().drop_last() =~= seq![b0, b1, b2]);
    assert(s.drop_last().drop_last().drop_last().drop_last().drop_last().drop_last() =~= seq![b0, b1]);
    assert(s.drop_last().drop_last().drop_last().drop_last().drop_last().drop_last().drop_last() =~= seq![b0]);
    assert(s.drop_last().drop_last().drop_last().drop_last().drop_last().drop_last().drop_last().drop_last() =~= Seq::<u8>::empty());
}

/// Converts a 64-bit integer to its eight big-endian bytes.
pub fn int64_to_bytes(num: u64) -> (r: Vec<u8>)
    ensures
        r@ == u64_be_bytes(num),
        r@.len() == 8,
        be_value(r@) == num as nat,
{
    let r = vec![
        ((num >> 56u64) & 0xff) as u8,
        ((num >> 48u64) & 0xff) as u8,
        ((num >> 40u64) & 0xff) as u8,
        ((num >> 32u64) & 0xff) as u8,
        ((num >> 24u64) & 0xff) as u8,
        ((num >> 16u64) & 0xff) as u8,
        ((num >> 8u64) & 0xff) as u8,
        (num & 0xff) as u8,
    ];
    proof {
        lemma_u64_be_bytes(num);
        assert(r@ =~= u64_be_bytes(num));
    }
    r
}

/// Wraps a single byte in a vector.
pub fn int8_to_bytes(num: u8) -> (r: Vec<u8>)
    ensures
        r@ == seq![num],
{
    vec![num]
}

/// The bytes of `a` followed by the bytes of `b`.
pub fn merge_u8_arrays(a: Vec<u8>, b: Vec<u8>) -> (r: Vec<u8>)
    ensures
        r@ == a@ + b@,
{
    let mut r = a;
    let mut b = b;
    r.append(&mut b);
    r
}

/// A 32-byte array whose first eight bytes are `value` in big-endian order and
/// whose other bytes are zero.
pub fn u64_to_u8_array_32(value: u64) -> (r: [u8; 32])
    ensures
        be_value(r@.subrange(0, 8)) == value as nat,
        forall|i: int| 8 <= i < 32 ==> r@[i] == 0,
{
    let head = int64_to_bytes(value);
    let mut r: [u8; 32] = [0u8; 32];
    let mut i: usize = 0;
    while i < 8
        invariant
            i <= 8,
            head@.len() == 8,
            forall|j: int| 0 <= j < i ==> r@[j] == head@[j],
            forall|j: int| 8 <= j < 32 ==> r@[j] == 0,
        decreases 8 - i,
    {
        r[i] = head[i];
        i = i + 1;
    }
    assert(r@.subrange(0, 8) =~= head@);
    r
}

/// Writes `uint / 10^decimal` in decimal: the integer part, then, where the
/// fraction is not zero, a point and the fraction without its trailing zeros.
pub fn uint_to_decimal_string(uint: u128, decimal: usize) -> (r: String)
    ensures
        r@ == decimal_string(uint as nat, decimal as nat),
{
    // fraction digits, least significant first
    let mut digits: Vec<u128> = Vec::new();
    let mut v: u128 = uint;
    let mut lowest: usize = decimal;
    let mut k: usize = 0;
    assert(pow10(0) == 1);
    assert(uint as nat / 1 == uint as nat);
    while k < decimal
        invariant
            k <= decimal,
            digits@.len() == k,
            v as nat == uint as nat / pow10(k as nat),
            forall|j: int| 0 <= j < k ==> digits@[j] as nat == dec_digit(uint as nat, j as nat),
            lowest == decimal || (lowest < k && dec_digit(uint as nat, lowest as nat) != 0),
            forall|j: nat| j < k && j < lowest ==> dec_digit(uint as nat, j) == 0,
        decreases decimal - k,
    {
        proof {
            lemma_pow10_pos(k as nat);
            lemma_div_denominator(uint as int, pow10(k as nat) as int, 10);
            assert(pow10((k + 1) as nat) == pow10(k as nat) * 10);
        }
        let d: u128 = v % 10;
        if d != 0 && lowest == decimal {
            lowest = k;
        }
        digits.push(d);
        v = v / 10;
        k = k + 1;
    }
    let mut s = u128_to_decimal(v);
    if lowest < decimal {
        let ghost head = s@;
        push_char(&mut s, '.');
        let mut j: usize = decimal;
        while j > lowest
            invariant
                lowest < j <= decimal || j == lowest,
                lowest <= j <= decimal,
                digits@.len() == decimal,
                forall|i: int| 0 <= i < decimal ==> digits@[i] as nat == dec_digit(uint as nat, i as nat),
                s@ == head + seq!['.'] + Seq::new((decimal - j) as nat, |i: int| digit_char(dec_digit(uint as nat, (decimal - 1 - i) as nat))),
            decreases j,
        {
            j = j - 1;
            proof {
                lemma_fundamental_div_mod((uint as nat / pow10(j as nat)) as int, 10);
            }
            push_char(&mut s, digit_to_char(digits[j]));
            assert(s@ =~= head + seq!['.'] + Seq::new((decimal - j) as nat, |i: int| digit_char(dec_digit(uint as nat, (decimal - 1 - i) as nat))));
        }
        proof {
            assert(has_fraction_from(uint as nat, decimal as nat, 0));
            let z = choose|z: nat|
                z < decimal && dec_digit(uint as nat, z) != 0 && forall|j: nat| j < z ==> dec_digit(uint as nat, j) == 0;
            assert(z == lowest) by {
                if z < lowest {
                } else if z > lowest {
                    assert(dec_digit(uint as nat, lowest as nat) == 0);
                }
            }
        }
    } else {
        assert(!has_fraction_from(uint as nat, decimal as nat, 0));
    }
    s
}

/// Bits per chunk of the circuit's big-integer encoding.
pub const CIRCOM_BIGINT_N: usize = 121;

/// Number of chunks of the circuit's big-integer encoding.
pub const CIRCOM_BIGINT_K: usize = 17;

/// The value of a decimal digit string, most significant digit first.
pub open spec fn parse_dec(s: Seq<char>) -> nat
    decreases s.len(),
{
    if s.len() == 0 {
        0
    } else {
        parse_dec(s.drop_last()) * 10 + ((s.last() as u32) - 48) as nat
    }
}

/// The circuit's encoding of `n`: seventeen decimal chunks of 121 bits each, the
/// least significant chunk first.
pub open spec fn circom_chunks(n: nat) -> Seq<Seq<char>> {
    Seq::new(17, |i: int| dec_chars(chunk_of(n, (121 * i) as nat, 121)))
}

/// The integer that decimal chunks of 121 bits stand for, the least significant
/// chunk first.
pub open spec fn circom_value(chunks: Seq<Seq<char>>) -> nat
    decreases chunks.len(),
{
    if chunks.len() == 0 {
        0
    } else {
        circom_value(chunks.drop_last()) + parse_dec(chunks.last()) * pow2(
            (121 * (chunks.len() - 1)) as nat,
        )
    }
}

/// Reading a decimal writing back gives the number.
pub proof fn lemma_parse_dec(n: nat)
    ensures
        parse_dec(dec_chars(n)) == n,
    decreases n,
{
    if n < 10 {
        assert(dec_chars(n).drop_last() =~= Seq::<char>::empty());
        assert((digit_char(n) as u32) == n + 48);
        assert(parse_dec(Seq::<char>::empty()) == 0);
    } else {
        lemma_parse_dec(n / 10);
        assert(dec_chars(n).drop_last() =~= dec_chars(n / 10));
        assert((digit_char(n % 10) as u32) == n % 10 + 48);
        assert(dec_chars(n).last() == digit_char(n % 10));
        assert(n == (n / 10) * 10 + n % 10);
    }
}

proof fn lemma_circom_prefix(n: nat, k: nat)
    requires
        k <= 17,
    ensures
        circom_value(circom_chunks(n).subrange(0, k as int)) == n % pow2((121 * k) as nat),
    decreases k,
{
    lemma_pow2_pos((121 * k) as nat);
    if k == 0 {
        assert(pow2(0) == 1) by {
            vstd::arithmetic::power2::lemma2_to64();
        }
        assert(circom_chunks(n).subrange(0, 0) =~= Seq::<Seq<char>>::empty());
        assert(n % 1 == 0);
    } else {
        let j = (k - 1) as nat;
        lemma_circom_prefix(n, j);
        let c = circom_chunks(n).subrange(0, k as int);
        assert(c.drop_last() =~= circom_chunks(n).subrange(0, j as int));
        lemma_parse_dec(chunk_of(n, 121 * j, 121));
        lemma_pow2_adds(121 * j, 121);
        lemma_pow2_pos(121 * j);
        lemma_pow2_pos(121);
        lemma_mod_breakdown(n as int, pow2(121 * j) as int, pow2(121) as int);
        assert(121 * k == 121 * j + 121);
        assert(c.last() == dec_chars(chunk_of(n, 121 * j, 121)));
        assert(circom_value(c) == circom_value(c.drop_last()) + parse_dec(c.last()) * pow2(
            (121 * j) as nat,
        ));
        assert(n % pow2(121 * k) == pow2(121 * j) * chunk_of(n, 121 * j, 121) + n % pow2(121 * j));
    }
}

/// For every integer `n` of at most 2057 bits, reading back the seventeen
/// decimal chunks of its circuit encoding gives `n`.
pub proof fn lemma_circom_round_trip(n: nat)
    requires
        n < pow2(2057),
    ensures
        circom_value(circom_chunks(n)) == n,
{
    lemma_circom_prefix(n, 17);
    assert(circom_chunks(n).subrange(0, 17) =~= circom_chunks(n));
    lemma_small_mod(n, pow2(2057));
}

/// The big-endian value of a byte string is the little-endian value of the
/// reversed string.
pub proof fn lemma_be_le_reverse(s: Seq<u8>)
    ensures
        be_value(s) == le_value(s.reverse()),
    decreases s.len(),
{
    if s.len() > 0 {
        lemma_be_le_reverse(s.drop_last());
        assert(s.reverse().drop_first() =~= s.drop_last().reverse());
    } else {
        assert(s.reverse() =~= Seq::<u8>::empty());
    }
}

pub(crate) fn reversed(b: &Vec<u8>) -> (r: Vec<u8>)
    ensures
        r@ == b@.reverse(),
{
    let mut r: Vec<u8> = Vec::new();
    let mut i: usize = b.len();
    while i > 0
        invariant
            i <= b@.len(),
            r@ == b@.subrange(i as int, b@.len() as int).reverse(),
        decreases i,
    {
        i = i - 1;
        r.push(b[i]);
        assert(r@ =~= b@.subrange(i as int, b@.len() as int).reverse());
    }
    assert(b@.subrange(0, b@.len() as int) =~= b@);
    r
}

/// Splits `bits_per_chunk`-bit chunks off the little-endian value of `num_le`,
/// the least significant first, and writes each in decimal.
fn big_int_to_chunked_bytes(num_le: &Vec<u8>, bits_per_chunk: usize, num_chunks: usize) -> (r: Vec<String>)
    requires
        bits_per_chunk <= 127,
        bits_per_chunk * num_chunks <= usize::MAX,
    ensures
        r@.len() == num_chunks,
        forall|i: int| 0 <= i < num_chunks ==> #[trigger] r@[i]@ == dec_chars(
            chunk_of(le_value(num_le@), (bits_per_chunk * i) as nat, bits_per_chunk as nat),
        ),
{
    let mut r: Vec<String> = Vec::new();
    let mut i: usize = 0;
    while i < num_chunks
        invariant
            i <= num_chunks,
            bits_per_chunk <= 127,
            bits_per_chunk * num_chunks <= usize::MAX,
            r@.len() == i,
            forall|j: int| 0 <= j < i ==> #[trigger] r@[j]@ == dec_chars(
                chunk_of(le_value(num_le@), (bits_per_chunk * j) as nat, bits_per_chunk as nat),
            ),
        decreases num_chunks - i,
    {
        assert(bits_per_chunk * i + bits_per_chunk <= bits_per_chunk * num_chunks) by (nonlinear_arith)
            requires i < num_chunks;
        let c = le_bits_chunk(num_le, bits_per_chunk * i, bits_per_chunk);
        r.push(u128_to_decimal(c));
        i = i + 1;
    }
    r
}

/// The circuit's encoding of the integer whose big-endian bytes are `num`:
/// seventeen decimal chunks of 121 bits, the least significant first.
pub fn to_circom_bigint_bytes(num: &Vec<u8>) -> (r: Vec<String>)
    ensures
        r@.len() == 17,
        forall|i: int| 0 <= i < 17 ==> #[trigger] r@[i]@ == circom_chunks(be_value(num@))[i],
{
    let le = reversed(num);
    proof {
        lemma_be_le_reverse(num@);
    }
    big_int_to_chunked_bytes(&le, CIRCOM_BIGINT_N, CIRCOM_BIGINT_K)
}

/// Whether the bits of `len` bytes, and a little room, can be counted in a `usize`.
pub open spec fn bit_len_fits(len: nat) -> bool {
    8 * len + 4096 <= usize::MAX
}

/// `a / b` rounded up.
pub open spec fn ceil_div(a: nat, b: nat) -> nat {
    if b == 0 {
        0
    } else {
        ((a + b - 1) as nat) / b
    }
}

/// The values of the field elements that `bytes` is cut into: 31 bytes each,
/// little-endian, the last chunk zero-extended.
pub open spec fn bytes_field_values(bytes: Seq<u8>) -> Seq<nat> {
    Seq::new((bytes.len() + 30) / 31, |k: int| chunk_of(le_value(bytes), (248 * k) as nat, 248))
}

/// The bytes that `bytes_chunk_fields` reads: `bytes` truncated to
/// `max_chunk_size` chunks of `chunk_bit_size` bits (shorter input counts as
/// zero-extended to that length).
pub open spec fn chunk_input(bytes: Seq<u8>, chunk_bit_size: nat, max_chunk_size: nat) -> Seq<u8> {
    let max_bytes = max_chunk_size * chunk_bit_size / 8;
    if bytes.len() <= max_bytes {
        bytes
    } else {
        bytes.subrange(0, max_bytes as int)
    }
}

/// The number of `chunk_bit_size`-bit words in `max_chunk_size` chunks' worth of
/// whole bytes.
pub open spec fn chunk_word_count(chunk_bit_size: nat, max_chunk_size: nat) -> nat {
    ceil_div(8 * (max_chunk_size * chunk_bit_size / 8), chunk_bit_size)
}

/// How many words the `k`-th field element sums: `num_chunk_in_field`, or what
/// is left for the last one.
pub open spec fn words_in_field(words: nat, num_chunk_in_field: nat, k: nat) -> nat {
    if words - num_chunk_in_field * k < num_chunk_in_field {
        (words - num_chunk_in_field * k) as nat
    } else {
        num_chunk_in_field
    }
}

/// The values of the field elements that `bytes_chunk_fields` builds: the bits of
/// the input's little-endian value cut into words of `chunk_bit_size` bits, and
/// each run of `num_chunk_in_field` words summed by position, modulo the field's
/// order.
pub open spec fn chunk_field_values(
    bytes: Seq<u8>,
    chunk_bit_size: nat,
    num_chunk_in_field: nat,
    max_chunk_size: nat,
) -> Seq<nat> {
    let v = le_value(chunk_input(bytes, chunk_bit_size, max_chunk_size));
    let words = chunk_word_count(chunk_bit_size, max_chunk_size);
    let width = chunk_bit_size * num_chunk_in_field;
    Seq::new(
        ceil_div(words, num_chunk_in_field),
        |k: int|
            chunk_of(
                v,
                (width * k) as nat,
                chunk_bit_size * words_in_field(words, num_chunk_in_field, k as nat),
            ) % field_modulus(),
    )
}

/// The values of a sequence of field elements.
pub open spec fn field_values(fs: Seq<FieldElement>) -> Seq<nat> {
    fs.map_values(|f: FieldElement| f.value())
}

/// Cuts `bits` bits at a time, from bit 0 up to `total_bits`, off the
/// little-endian value of `bytes`, each range becoming one field element.
fn bit_ranges_to_fields(bytes: &Vec<u8>, width: usize, total_bits: usize) -> (r: Vec<FieldElement>)
    requires
        0 < width <= 248,
        total_bits + width + 256 <= usize::MAX,
    ensures
        r@.len() == ceil_div(total_bits as nat, width as nat),
        forall|k: int| 0 <= k < r@.len() ==> (#[trigger] r@[k]).wf() && r@[k].value() == chunk_of(
            le_value(bytes@),
            (width * k) as nat,
            width as nat,
        ),
{
    let count: usize = (total_bits + width - 1) / width;
    let mut r: Vec<FieldElement> = Vec::new();
    let mut k: usize = 0;
    while k < count
        invariant
            0 < width <= 248,
            total_bits + width + 256 <= usize::MAX,
            count == ceil_div(total_bits as nat, width as nat),
            k <= count,
            r@.len() == k,
            forall|j: int| 0 <= j < r@.len() ==> (#[trigger] r@[j]).wf() && r@[j].value()
                == chunk_of(le_value(bytes@), (width * j) as nat, width as nat),
        decreases count - k,
    {
        assert(width * k <= total_bits) by (nonlinear_arith)
            requires k < count, count == (total_bits + width - 1) / width as int, width > 0;
        let start: usize = width * k;
        let f = field_from_bits(bytes, start, width);
        proof {
            lemma_pow2_limbs();
            lemma_pow2_pos(start as nat);
            lemma_pow2_pos(width as nat);
            vstd::arithmetic::div_mod::lemma_mod_bound(
                (le_value(bytes@) / pow2(start as nat)) as int,
                pow2(width as nat) as int,
            );
            if width < 248 {
                vstd::arithmetic::power2::lemma_pow2_strictly_increases(width as nat, 248);
            }
        }
        r.push(f);
        k = k + 1;
    }
    r
}

/// Cuts `bytes` into 31-byte chunks, the last one zero-extended, and reads each
/// little-endian as a field element; 31 bytes always stay below the modulus.
pub fn bytes_to_fields(bytes: &Vec<u8>) -> (r: Vec<FieldElement>)
    requires
        bit_len_fits(bytes@.len()),
    ensures
        field_values(r@) == bytes_field_values(bytes@),
        forall|k: int| 0 <= k < r@.len() ==> (#[trigger] r@[k]).wf(),
{
    let total_bits: usize = bytes.len() * 8;
    let r = bit_ranges_to_fields(bytes, 248, total_bits);
    proof {
        let n = bytes@.len();
        assert((8 * n + 247) / 248 == (n + 30) / 31);
        assert(field_values(r@) =~= bytes_field_values(bytes@));
    }
    r
}

/// The sum of `count` words of `chunk_bit_size` bits of the little-endian value
/// of `bytes`, from bit `start` on, each weighted by its position, modulo the
/// field's order.
fn sum_words(bytes: &Vec<u8>, start: usize, chunk_bit_size: usize, count: usize) -> (r: FieldElement)
    requires
        0 < chunk_bit_size <= 127,
        start + chunk_bit_size * count + 128 <= usize::MAX,
    ensures
        r.wf(),
        r.value() == chunk_of(le_value(bytes@), start as nat, (chunk_bit_size * count) as nat)
            % field_modulus(),
{
    let ghost v = le_value(bytes@);
    let ghost p = field_modulus();
    proof {
        lemma_pow2_limbs();
        vstd::arithmetic::power2::lemma_pow2_strictly_increases(chunk_bit_size as nat, 128);
    }
    let mut b: u128 = 1;
    let mut t: usize = 0;
    proof {
        vstd::arithmetic::power2::lemma2_to64();
    }
    while t < chunk_bit_size
        invariant
            t <= chunk_bit_size <= 127,
            b as nat == pow2(t as nat),
        decreases chunk_bit_size - t,
    {
        proof {
            lemma_pow2_adds(t as nat, 1);
            vstd::arithmetic::power2::lemma2_to64();
            vstd::arithmetic::power2::lemma_pow2_strictly_increases(t as nat + 1, 128);
            lemma_pow2_limbs();
        }
        b = b * 2;
        t = t + 1;
    }
    let base = field_from_u128(b);
    let mut acc = FieldElement::zero();
    let mut coeff = FieldElement::one();
    let mut j: usize = 0;
    proof {
        vstd::arithmetic::power2::lemma2_to64();
        vstd::arithmetic::div_mod::lemma_small_mod(1, p);
        vstd::arithmetic::div_mod::lemma_small_mod(0, p);
        assert(chunk_of(v, start as nat, 0) == 0);
    }
    while j < count
        invariant
            0 < chunk_bit_size <= 127,
            start + chunk_bit_size * count + 128 <= usize::MAX,
            j <= count,
            v == le_value(bytes@),
            p == field_modulus(),
            base.wf(),
            base.value() == pow2(chunk_bit_size as nat),
            acc.wf(),
            coeff.wf(),
            acc.value() == chunk_of(v, start as nat, (chunk_bit_size * j) as nat) % p,
            coeff.value() == pow2((chunk_bit_size * j) as nat) % p,
        decreases count - j,
    {
        assert(chunk_bit_size * j + chunk_bit_size <= chunk_bit_size * count) by (nonlinear_arith)
            requires j < count;
        let pos: usize = start + chunk_bit_size * j;
        let w = le_bits_chunk(bytes, pos, chunk_bit_size);
        let wf = field_from_u128(w);
        let t = fr_mul(&coeff, &wf);
        let next_acc = fr_add(&acc, &t);
        let next_coeff = fr_mul(&coeff, &base);
        proof {
            let cj = (chunk_bit_size * j) as nat;
            let c = chunk_bit_size as nat;
            let s = chunk_of(v, start as nat, cj);
            let e = pow2(cj);
            lemma_chunk_split(v, start as nat, cj, c);
            assert(cj + c == chunk_bit_size * (j + 1)) by (nonlinear_arith)
                requires cj == chunk_bit_size * j, c == chunk_bit_size;
            vstd::arithmetic::div_mod::lemma_mul_mod_noop_left(e as int, w as int, p as int);
            vstd::arithmetic::div_mod::lemma_add_mod_noop(s as int, (e * w) as int, p as int);
            vstd::arithmetic::div_mod::lemma_mod_twice(s as int, p as int);
            vstd::arithmetic::div_mod::lemma_mod_twice((e * w) as int, p as int);
            assert(next_acc.value() == (s + e * w) % (p as int));
            vstd::arithmetic::div_mod::lemma_mul_mod_noop_left(e as int, c as int, p as int);
            vstd::arithmetic::div_mod::lemma_mul_mod_noop_left(e as int, pow2(c) as int, p as int);
            lemma_pow2_adds(cj, c);
        }
        acc = next_acc;
        coeff = next_coeff;
        j = j + 1;
    }
    acc
}

/// Truncates or zero-extends `bytes` to `max_chunk_size` chunks of
/// `chunk_bit_size` bits, cuts the bits of its little-endian value into such
/// chunks, and sums each run of `num_chunk_in_field` chunks by position, modulo
/// the field's order, into one field element.
pub fn bytes_chunk_fields(
    bytes: &Vec<u8>,
    chunk_bit_size: usize,
    num_chunk_in_field: usize,
    max_chunk_size: usize,
) -> (r: Vec<FieldElement>)
    requires
        0 < chunk_bit_size <= 127,
        0 < num_chunk_in_field,
        max_chunk_size * chunk_bit_size + 4096 <= usize::MAX,
    ensures
        field_values(r@) == chunk_field_values(
            bytes@,
            chunk_bit_size as nat,
            num_chunk_in_field as nat,
            max_chunk_size as nat,
        ),
        forall|k: int| 0 <= k < r@.len() ==> (#[trigger] r@[k]).wf(),
{
    let max_bytes_size: usize = max_chunk_size * chunk_bit_size / 8;
    let input = if bytes.len() <= max_bytes_size {
        bytes.clone()
    } else {
        let mut t: Vec<u8> = Vec::new();
        let mut i: usize = 0;
        while i < max_bytes_size
            invariant
                i <= max_bytes_size < bytes@.len(),
                t@ == bytes@.subrange(0, i as int),
            decreases max_bytes_size - i,
        {
            t.push(bytes[i]);
            i = i + 1;
            assert(t@ =~= bytes@.subrange(0, i as int));
        }
        t
    };
    let ghost inp = chunk_input(bytes@, chunk_bit_size as nat, max_chunk_size as nat);
    assert(input@ == inp);
    assert(8 * max_bytes_size <= max_chunk_size * chunk_bit_size) by (nonlinear_arith)
        requires max_bytes_size == max_chunk_size * chunk_bit_size / 8;
    let total_bits: usize = 8 * max_bytes_size;
    let words: usize = (total_bits + chunk_bit_size - 1) / chunk_bit_size;
    let fields: usize = words / num_chunk_in_field + if words % num_chunk_in_field != 0 {
        1
    } else {
        0
    };
    assert(fields == ceil_div(words as nat, num_chunk_in_field as nat)) by (nonlinear_arith)
        requires
            fields == words / num_chunk_in_field + if words % num_chunk_in_field != 0 { 1int } else { 0int },
            num_chunk_in_field > 0,
            ceil_div(words as nat, num_chunk_in_field as nat) == ((words + num_chunk_in_field - 1) as nat)
                / (num_chunk_in_field as nat);
    assert(words as nat == chunk_word_count(chunk_bit_size as nat, max_chunk_size as nat));
    assert(chunk_bit_size * words <= total_bits + chunk_bit_size) by (nonlinear_arith)
        requires words == (total_bits + chunk_bit_size - 1) as int / chunk_bit_size as int, chunk_bit_size > 0;
    let mut r: Vec<FieldElement> = Vec::new();
    let mut k: usize = 0;
    while k < fields
        invariant
            0 < chunk_bit_size <= 127,
            0 < num_chunk_in_field,
            input@ == inp,
            inp == chunk_input(bytes@, chunk_bit_size as nat, max_chunk_size as nat),
            words as nat == chunk_word_count(chunk_bit_size as nat, max_chunk_size as nat),
            fields == ceil_div(words as nat, num_chunk_in_field as nat),
            chunk_bit_size * words <= total_bits + chunk_bit_size,
            total_bits + 4096 <= usize::MAX,
            k <= fields,
            r@.len() == k,
            forall|j: int| 0 <= j < k ==> (#[trigger] r@[j]).wf() && r@[j].value()
                == chunk_field_values(
                bytes@,
                chunk_bit_size as nat,
                num_chunk_in_field as nat,
                max_chunk_size as nat,
            )[j],
        decreases fields - k,
    {
        assert(num_chunk_in_field * k < words) by (nonlinear_arith)
            requires
                k < fields,
                fields == (words + num_chunk_in_field - 1) / num_chunk_in_field as int,
                num_chunk_in_field > 0;
        let first: usize = num_chunk_in_field * k;
        let left: usize = words - first;
        let count: usize = if left < num_chunk_in_field { left } else { num_chunk_in_field };
        assert(chunk_bit_size * first + chunk_bit_size * count <= chunk_bit_size * words)
            by (nonlinear_arith)
            requires first + count <= words;
        let start: usize = chunk_bit_size * first;
        let f = sum_words(&input, start, chunk_bit_size, count);
        proof {
            assert(start == chunk_bit_size * num_chunk_in_field * k) by (nonlinear_arith)
                requires start == chunk_bit_size * first, first == num_chunk_in_field * k;
        }
        r.push(f);
        k = k + 1;
    }
    r
}

/// The big-endian value of two byte strings one after the other.
pub proof fn lemma_be_value_concat(a: Seq<u8>, b: Seq<u8>)
    ensures
        be_value(a + b) == be_value(a) * pow2((8 * b.len()) as nat) + be_value(b),
    decreases b.len(),
{
    vstd::arithmetic::power2::lemma2_to64();
    if b.len() == 0 {
        assert(a + b =~= a);
        assert(pow2(0) == 1);
        assert(be_value(b) == 0);
        assert(be_value(a) * 1 == be_value(a));
    } else {
        lemma_be_value_concat(a, b.drop_last());
        assert((a + b).drop_last() =~= a + b.drop_last());
        lemma_pow2_adds((8 * (b.len() - 1)) as nat, 8);
        assert(8 * b.len() == 8 * (b.len() - 1) + 8);
        let p = pow2((8 * (b.len() - 1)) as nat);
        assert((a + b).last() == b.last());
        assert(pow2((8 * b.len()) as nat) == p * pow2(8));
        assert(pow2(8) == 256);
        assert(be_value(a + b) == be_value(a + b.drop_last()) * 256 + b.last() as nat);
        assert(be_value(b) == be_value(b.drop_last()) * 256 + b.last() as nat);
        assert((be_value(a) * p + be_value(b.drop_last())) * 256 + b.last() as nat == be_value(a) * (p
            * 256) + (be_value(b.drop_last()) * 256 + b.last() as nat)) by (nonlinear_arith);
    }
}

} // verus!
