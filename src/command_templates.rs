//! Reading typed values out of a command by a template of placeholders and words.
use crate::bits::chunk_of;
use crate::circuit::{find_bytes, occurs_at};
use crate::converters::{be_value, ceil_div, int64_to_bytes, lemma_be_value_concat};
use crate::sha::zeros;
use crate::field::{decode_hex, hex_decode};
use crate::pattern::{regex_find, regex_first_match, regex_valid};
use vstd::arithmetic::power2::{lemma_pow2_adds, lemma_pow2_pos, pow2};
use vstd::prelude::*;
use vstd::string::{StrSliceExecFns, StringExecFns, StringSliceAdditionalSpecFns};
use vstd::utf8::{decode_utf8, valid_utf8};

verus! {

/// The pattern of a `{string}` placeholder.
pub const STRING_REGEX: &'static str = "\\S+";

/// The pattern of a `{uint}` placeholder.
pub const UINT_REGEX: &'static str = "\\d+";

/// The pattern of an `{int}` placeholder.
pub const INT_REGEX: &'static str = "-?\\d+";

/// The pattern of an `{ethAddr}` placeholder.
pub const ETH_ADDR_REGEX: &'static str = "0x[a-fA-F0-9]{40}";

/// The pattern of a `{decimals}` placeholder.
pub const DECIMALS_REGEX: &'static str = "\\d+\\.\\d+";

/// What separates the words of a command.
pub const WORD_SEPARATOR_REGEX: &'static str = "\\s+";

/// The point of a decimal amount.
pub const DECIMAL_POINT_REGEX: &'static str = "\\.";

/// Where the HTML part of a raw email starts.
pub const HTML_PART_REGEX: &'static str = "(?s)Content-Type:\\s*text/html;";

/// What a template word stands for.
#[derive(Debug, Clone, Copy, PartialEq, Eq, Structural)]
pub enum TemplateKind {
    String,
    Uint,
    Int,
    Decimals,
    EthAddr,
    /// A word that must appear as it is.
    Fixed,
}

/// The kind of a template word: one of the five placeholders, or a fixed word.
pub open spec fn kind_of(t: Seq<char>) -> TemplateKind {
    if t == "{string}"@ {
        TemplateKind::String
    } else if t == "{uint}"@ {
        TemplateKind::Uint
    } else if t == "{int}"@ {
        TemplateKind::Int
    } else if t == "{decimals}"@ {
        TemplateKind::Decimals
    } else if t == "{ethAddr}"@ {
        TemplateKind::EthAddr
    } else {
        TemplateKind::Fixed
    }
}

/// An unsigned 256-bit integer as four 64-bit limbs, the least significant first.
#[derive(Debug, Clone, Copy, PartialEq, Eq)]
pub struct U256 {
    pub limbs: [u64; 4],
}

impl U256 {
    /// The number that the limbs stand for.
    pub open spec fn value(&self) -> nat {
        self.limbs[0] as nat + pow2(64) * (self.limbs[1] as nat) + pow2(128) * (
        self.limbs[2] as nat) + pow2(192) * (self.limbs[3] as nat)
    }
}

/// A signed 256-bit integer as a sign and a magnitude.
#[derive(Debug, Clone, Copy, PartialEq, Eq)]
pub struct I256 {
    pub negative: bool,
    pub magnitude: U256,
}

impl I256 {
    /// The number that the sign and magnitude stand for.
    pub open spec fn value(&self) -> int {
        if self.negative {
            -(self.magnitude.value() as int)
        } else {
            self.magnitude.value() as int
        }
    }
}

/// A value read from a command.
#[derive(Debug, Clone, PartialEq, Eq)]
pub enum TemplateValue {
    String(String),
    Uint(U256),
    Int(I256),
    /// A decimal amount as written.
    Decimals(String),
    /// The twenty bytes of an Ethereum address.
    EthAddr(Vec<u8>),
    Fixed(String),
}

/// What a value read from a command holds.
pub enum TemplateValueView {
    String(Seq<char>),
    Uint(nat),
    Int(int),
    Decimals(Seq<char>),
    EthAddr(Seq<u8>),
    Fixed(Seq<char>),
}

impl View for TemplateValue {
    type V = TemplateValueView;

    open spec fn view(&self) -> TemplateValueView {
        match self {
            TemplateValue::String(s) => TemplateValueView::String(s@),
            TemplateValue::Uint(u) => TemplateValueView::Uint(u.value()),
            TemplateValue::Int(i) => TemplateValueView::Int(i.value()),
            TemplateValue::Decimals(s) => TemplateValueView::Decimals(s@),
            TemplateValue::EthAddr(b) => TemplateValueView::EthAddr(b@),
            TemplateValue::Fixed(s) => TemplateValueView::Fixed(s@),
        }
    }
}

/// Why values could not be read from a command.
#[derive(Debug, Clone, Copy, PartialEq, Eq)]
pub enum TemplateError {
    /// The template does not make a valid pattern.
    InvalidTemplate,
    /// The command holds nothing that the template matches.
    NoMatch,
    /// The matched text has fewer words than the template.
    MissingWord,
    /// A word holds nothing of its placeholder's kind.
    NotFound(TemplateKind),
    /// A word holds its placeholder's kind only in part.
    NotWholeWord(TemplateKind),
    /// A number does not fit 256 bits.
    OutOfRange(TemplateKind),
    /// Matched bytes are not UTF-8.
    InvalidUtf8,
    /// A decimal amount has more fractional digits than its token has decimals.
    TooManyDecimals,
    /// A fixed word has no encoding.
    FixedValue,
    /// An address that is not twenty bytes long.
    InvalidAddress,
}

/// The ASCII bytes of `</div>`.
pub open spec fn div_end_tag() -> Seq<u8> {
    seq![60u8, 47u8, 100u8, 105u8, 118u8, 62u8]
}

/// `b` up to the first `</div>`, or all of it.
pub open spec fn cut_at_div_end(b: Seq<u8>) -> Seq<u8> {
    if exists|i: int| occurs_at(b, div_end_tag(), i) {
        let i = choose|i: int|
            occurs_at(b, div_end_tag(), i) && forall|j: int| 0 <= j < i ==> !occurs_at(b, div_end_tag(), j);
        b.subrange(0, i)
    } else {
        b
    }
}

/// Whether `b` is one or more ASCII digits.
pub open spec fn is_ascii_digits(b: Seq<u8>) -> bool {
    b.len() > 0 && forall|i: int| 0 <= i < b.len() ==> 48 <= #[trigger] b[i] <= 57
}

/// The value of ASCII decimal digits, most significant first.
pub open spec fn parse_dec_bytes(b: Seq<u8>) -> nat
    decreases b.len(),
{
    if b.len() == 0 {
        0
    } else {
        parse_dec_bytes(b.drop_last()) * 10 + (b.last() - 48) as nat
    }
}

/// The value of 64-bit limbs, the least significant first.
pub open spec fn limbs_value(d: Seq<u64>) -> nat
    decreases d.len(),
{
    if d.len() == 0 {
        0
    } else {
        d[0] as nat + pow2(64) * limbs_value(d.drop_first())
    }
}

/// Relies on num_bigint's BigUint::parse_bytes, which reads ASCII decimal digits,
/// and BigUint::to_u64_digits, which gives the limbs, the least significant first,
/// with no zero limb at the top.
#[verifier::external_body]
fn decimal_limbs(digits: &[u8]) -> (r: Vec<u64>)
    requires
        is_ascii_digits(digits@),
    ensures
        limbs_value(r@) == parse_dec_bytes(digits@),
        r@.len() == 0 || r@.last() != 0,
{
    num_bigint::BigUint::parse_bytes(digits, 10).unwrap_or_default().to_u64_digits()
}

/// Whether a character has a meaning in a regular expression.
pub open spec fn is_regex_meta(c: char) -> bool {
    c == '\\' || c == '.' || c == '+' || c == '*' || c == '?' || c == '(' || c == ')' || c == '|'
        || c == '[' || c == ']' || c == '{' || c == '}' || c == '^' || c == '$' || c == '#' || c
        == '&' || c == '-' || c == '~'
}

/// `s` with a backslash before every character that has a meaning in a regular
/// expression.
pub open spec fn regex_escaped(s: Seq<char>) -> Seq<char>
    decreases s.len(),
{
    if s.len() == 0 {
        Seq::empty()
    } else {
        regex_escaped(s.drop_last()) + if is_regex_meta(s.last()) {
            seq!['\\', s.last()]
        } else {
            seq![s.last()]
        }
    }
}

/// Relies on regex::escape, which puts a backslash before each of the
/// characters `\ . + * ? ( ) | [ ] { } ^ $ # & - ~` and keeps every other.
#[verifier::external_body]
fn escape_regex(s: &str) -> (r: String)
    ensures
        r@ == regex_escaped(s@),
{
    regex::escape(s)
}

/// Whether `c` has the Unicode White_Space property.
pub open spec fn is_white_space(c: char) -> bool {
    let u = c as u32;
    (9 <= u <= 13) || u == 32 || u == 0x85 || u == 0xa0 || u == 0x1680 || (0x2000 <= u <= 0x200a)
        || u == 0x2028 || u == 0x2029 || u == 0x202f || u == 0x205f || u == 0x3000
}

/// The maximal runs of characters of `s` that are not white space, in order.
pub open spec fn whitespace_split(s: Seq<char>) -> Seq<Seq<char>>
    decreases s.len(),
{
    if s.len() == 0 {
        Seq::empty()
    } else {
        let prev = whitespace_split(s.drop_last());
        let c = s.last();
        if is_white_space(c) {
            prev
        } else if s.len() >= 2 && !is_white_space(s[s.len() - 2]) && prev.len() > 0 {
            prev.update(prev.len() - 1, prev.last().push(c))
        } else {
            prev.push(seq![c])
        }
    }
}

/// Relies on str::split_whitespace: the words of the string between runs of
/// characters for which char::is_whitespace holds (Unicode White_Space), in order.
#[verifier::external_body]
fn split_words(s: &str) -> (r: Vec<String>)
    ensures
        r@.len() == whitespace_split(s@).len(),
        forall|i: int| 0 <= i < r@.len() ==> #[trigger] r@[i]@ == whitespace_split(s@)[i],
{
    s.split_whitespace().map(|w| w.to_string()).collect()
}

/// Relies on String::from_utf8: the string of valid UTF-8 bytes; other bytes
/// are refused.
#[verifier::external_body]
fn utf8_string(b: &[u8]) -> (r: Option<String>)
    ensures
        r is Some <==> valid_utf8(b@),
        r matches Some(s) ==> s@ == decode_utf8(b@),
{
    String::from_utf8(b.to_vec()).ok()
}

proof fn lemma_limbs_bounds(d: Seq<u64>)
    ensures
        limbs_value(d) < pow2((64 * d.len()) as nat),
        d.len() > 0 && d.last() != 0 ==> limbs_value(d) >= pow2((64 * (d.len() - 1)) as nat),
    decreases d.len(),
{
    vstd::arithmetic::power2::lemma2_to64();
    vstd::arithmetic::power2::lemma2_to64_rest();
    if d.len() > 0 {
        let t = d.drop_first();
        lemma_limbs_bounds(t);
        lemma_pow2_adds(64, (64 * t.len()) as nat);
        lemma_pow2_pos((64 * t.len()) as nat);
        assert(64 * d.len() == 64 + 64 * t.len());
        assert(d[0] as nat + pow2(64) * limbs_value(t) < pow2(64) * pow2((64 * t.len()) as nat))
            by (nonlinear_arith)
            requires
                (d[0] as nat) < pow2(64),
                limbs_value(t) < pow2((64 * t.len()) as nat),
                pow2(64) > 0;
        if d.last() != 0 {
            if t.len() > 0 {
                assert(t.last() == d.last());
                lemma_pow2_adds(64, (64 * (t.len() - 1)) as nat);
                assert(64 * (d.len() - 1) == 64 + 64 * (t.len() - 1));
                assert(d[0] as nat + pow2(64) * limbs_value(t) >= pow2(64) * pow2(
                    (64 * (t.len() - 1)) as nat,
                )) by (nonlinear_arith)
                    requires
                        limbs_value(t) >= pow2((64 * (t.len() - 1)) as nat),
                        pow2(64) > 0;
            } else {
                assert(d[0] == d.last());
                assert(pow2(0) == 1);
            }
        }
    }
}

/// Reads one or more ASCII digits as a 256-bit unsigned integer; `None` where the
/// value does not fit.
pub fn parse_u256(digits: &[u8]) -> (r: Option<U256>)
    requires
        is_ascii_digits(digits@),
    ensures
        r is Some <==> parse_dec_bytes(digits@) < pow2(256),
        r matches Some(u) ==> u.value() == parse_dec_bytes(digits@),
{
    let d = decimal_limbs(digits);
    proof {
        lemma_limbs_bounds(d@);
        crate::field::lemma_pow2_limbs();
        if d@.len() > 5 {
            vstd::arithmetic::power2::lemma_pow2_strictly_increases(256, (64 * (d@.len() - 1)) as nat);
        } else if d@.len() < 4 {
            vstd::arithmetic::power2::lemma_pow2_strictly_increases((64 * d@.len()) as nat, 256);
        }
    }
    if d.len() > 4 {
        return None;
    }
    let l0: u64 = if d.len() > 0 { d[0] } else { 0 };
    let l1: u64 = if d.len() > 1 { d[1] } else { 0 };
    let l2: u64 = if d.len() > 2 { d[2] } else { 0 };
    let l3: u64 = if d.len() > 3 { d[3] } else { 0 };
    let u = U256 { limbs: [l0, l1, l2, l3] };
    proof {
        reveal_with_fuel(limbs_value, 5);
        let s = d@;
        if s.len() >= 1 {
            assert(s.drop_first().len() == s.len() - 1);
        }
        if s.len() >= 2 {
            assert(s.drop_first().drop_first().len() == s.len() - 2);
            assert(s.drop_first()[0] == s[1]);
        }
        if s.len() >= 3 {
            assert(s.drop_first().drop_first()[0] == s[2]);
        }
        if s.len() >= 4 {
            assert(s.drop_first().drop_first().drop_first()[0] == s[3]);
            assert(s.drop_first().drop_first().drop_first().drop_first().len() == 0);
        }
        let k = pow2(64);
        assert(u.limbs[0] == l0 && u.limbs[1] == l1 && u.limbs[2] == l2 && u.limbs[3] == l3);
        assert(l0 + k * (l1 + k * (l2 + k * l3)) == l0 + k * l1 + (k * k) * l2 + (k * k * k) * l3)
            by (nonlinear_arith);
    }
    Some(u)
}

/// The pattern of a placeholder kind.
pub open spec fn kind_pattern(kind: TemplateKind) -> Seq<char> {
    match kind {
        TemplateKind::String => STRING_REGEX@,
        TemplateKind::Uint => UINT_REGEX@,
        TemplateKind::Int => INT_REGEX@,
        TemplateKind::Decimals => DECIMALS_REGEX@,
        _ => ETH_ADDR_REGEX@,
    }
}

/// The value that one word of a command gives for a placeholder of kind `kind`.
pub open spec fn word_value(kind: TemplateKind, word: Seq<char>) -> Result<
    TemplateValueView,
    TemplateError,
> {
    let b = vstd::utf8::encode_utf8(word);
    word_value_at(
        kind,
        b,
        if regex_valid(kind_pattern(kind)) {
            regex_first_match(kind_pattern(kind), b)
        } else {
            None
        },
    )
}

/// The value that the bytes `b` of a word give for a placeholder of kind `kind`,
/// where `found` is the first match of the placeholder's pattern in them: the
/// match must be the whole word.
#[verifier::opaque]
pub open spec fn word_value_at(kind: TemplateKind, b: Seq<u8>, found: Option<(int, int)>) -> Result<
    TemplateValueView,
    TemplateError,
> {
    match found {
        None => Err(TemplateError::NotFound(kind)),
        Some(m) => if m.0 != 0 {
            Err(TemplateError::NotWholeWord(kind))
        } else if m.1 != b.len() {
            Err(TemplateError::NotWholeWord(kind))
        } else {
            let t = cut_at_div_end(b.subrange(0, m.1));
            match kind {
                TemplateKind::Uint => if !is_ascii_digits(t) {
                    Err(TemplateError::NotFound(kind))
                } else if parse_dec_bytes(t) >= pow2(256) {
                    Err(TemplateError::OutOfRange(kind))
                } else {
                    Ok(TemplateValueView::Uint(parse_dec_bytes(t)))
                },
                TemplateKind::Int => {
                    let negative = t.len() > 0 && t[0] == 45;
                    let digits = if negative {
                        t.drop_first()
                    } else {
                        t
                    };
                    if !is_ascii_digits(digits) {
                        Err(TemplateError::NotFound(kind))
                    } else if (negative && parse_dec_bytes(digits) > pow2(255)) || (!negative
                        && parse_dec_bytes(digits) >= pow2(255)) {
                        Err(TemplateError::OutOfRange(kind))
                    } else {
                        Ok(
                            TemplateValueView::Int(
                                if negative {
                                    -(parse_dec_bytes(digits) as int)
                                } else {
                                    parse_dec_bytes(digits) as int
                                },
                            ),
                        )
                    }
                },
                TemplateKind::EthAddr => {
                    let m = b.subrange(0, m.1);
                    if m.len() != 42 || !valid_utf8(m.subrange(2, 42)) {
                        Err(TemplateError::NotFound(kind))
                    } else {
                        match hex_decode(decode_utf8(m.subrange(2, 42))) {
                            Some(x) => if x.len() == 20 {
                                Ok(TemplateValueView::EthAddr(x))
                            } else {
                                Err(TemplateError::NotFound(kind))
                            },
                            None => Err(TemplateError::NotFound(kind)),
                        }
                    }
                },
                _ => if !valid_utf8(t) {
                    Err(TemplateError::InvalidUtf8)
                } else if kind == TemplateKind::Decimals {
                    Ok(TemplateValueView::Decimals(decode_utf8(t)))
                } else {
                    Ok(TemplateValueView::String(decode_utf8(t)))
                },
            }
        },
    }
}

/// The values that the words of a command give for the placeholders of the
/// template, the template's `i`-th word standing against the command's `i`-th word.
pub open spec fn template_values(words: Seq<Seq<char>>, templates: Seq<Seq<char>>) -> Result<
    Seq<TemplateValueView>,
    TemplateError,
>
    decreases templates.len(),
{
    if templates.len() == 0 {
        Ok(Seq::empty())
    } else {
        match template_values(words, templates.drop_last()) {
            Err(e) => Err(e),
            Ok(vs) => {
                let i = templates.len() - 1;
                let kind = kind_of(templates.last());
                if kind == TemplateKind::Fixed {
                    Ok(vs)
                } else if i >= words.len() {
                    Err(TemplateError::MissingWord)
                } else {
                    match word_value(kind, words[i]) {
                        Err(e) => Err(e),
                        Ok(v) => Ok(vs.push(v)),
                    }
                }
            },
        }
    }
}

pub(crate) fn str_eq(a: &str, b: &str) -> (r: bool)
    ensures
        r == (a@ == b@),
{
    let n = a.unicode_len();
    if n != b.unicode_len() {
        return false;
    }
    let mut i: usize = 0;
    while i < n
        invariant
            n == a@.len() == b@.len(),
            i <= n,
            forall|j: int| 0 <= j < i ==> a@[j] == b@[j],
        decreases n - i,
    {
        if a.get_char(i) != b.get_char(i) {
            return false;
        }
        i = i + 1;
    }
    assert(a@ =~= b@);
    true
}

/// The kind of a template word.
pub fn template_kind(t: &str) -> (r: TemplateKind)
    ensures
        r == kind_of(t@),
{
    if str_eq(t, "{string}") {
        TemplateKind::String
    } else if str_eq(t, "{uint}") {
        TemplateKind::Uint
    } else if str_eq(t, "{int}") {
        TemplateKind::Int
    } else if str_eq(t, "{decimals}") {
        TemplateKind::Decimals
    } else if str_eq(t, "{ethAddr}") {
        TemplateKind::EthAddr
    } else {
        TemplateKind::Fixed
    }
}

fn slice_range(b: &[u8], from: usize, to: usize) -> (r: Vec<u8>)
    requires
        from <= to <= b@.len(),
    ensures
        r@ == b@.subrange(from as int, to as int),
{
    let mut r: Vec<u8> = Vec::new();
    let mut i: usize = from;
    while i < to
        invariant
            from <= i <= to <= b@.len(),
            r@ == b@.subrange(from as int, i as int),
        decreases to - i,
    {
        r.push(b[i]);
        i = i + 1;
        assert(r@ =~= b@.subrange(from as int, i as int));
    }
    r
}

fn cut_div_end(b: Vec<u8>) -> (r: Vec<u8>)
    ensures
        r@ == cut_at_div_end(b@),
{
    let tag: Vec<u8> = vec![60u8, 47u8, 100u8, 105u8, 118u8, 62u8];
    assert(tag@ =~= div_end_tag());
    match find_bytes(b.as_slice(), tag.as_slice()) {
        Some(i) => slice_range(b.as_slice(), 0, i),
        None => b,
    }
}

pub(crate) fn ascii_digits_of(b: &[u8]) -> (r: bool)
    ensures
        r == is_ascii_digits(b@),
{
    if b.len() == 0 {
        return false;
    }
    let mut i: usize = 0;
    while i < b.len()
        invariant
            i <= b@.len(),
            forall|j: int| 0 <= j < i ==> 48 <= #[trigger] b@[j] <= 57,
        decreases b@.len() - i,
    {
        if b[i] < 48 || b[i] > 57 {
            return false;
        }
        i = i + 1;
    }
    true
}

/// Reads the value of one word of a command for a placeholder of kind `kind`.
pub fn read_word(kind: TemplateKind, word: &str) -> (r: Result<TemplateValue, TemplateError>)
    requires
        kind != TemplateKind::Fixed,
    ensures
        r is Ok <==> word_value(kind, word@) is Ok,
        r matches Ok(v) ==> word_value(kind, word@) == Ok::<TemplateValueView, TemplateError>(v@),
        r matches Err(e) ==> word_value(kind, word@) == Err::<TemplateValueView, TemplateError>(e),
{
    let pattern: &str = match kind {
        TemplateKind::String => STRING_REGEX,
        TemplateKind::Uint => UINT_REGEX,
        TemplateKind::Int => INT_REGEX,
        TemplateKind::Decimals => DECIMALS_REGEX,
        _ => ETH_ADDR_REGEX,
    };
    let found = match regex_find(pattern, word.as_bytes()) {
        Ok(Some(m)) => Some(m),
        _ => None,
    };
    read_word_at(kind, word, found)
}

/// Reads the value of one word of a command for a placeholder of kind `kind`,
/// given the first match `found` of the placeholder's pattern in the word's bytes.
pub fn read_word_at(kind: TemplateKind, word: &str, found: Option<(usize, usize)>) -> (r: Result<
    TemplateValue,
    TemplateError,
>)
    requires
        kind != TemplateKind::Fixed,
        found matches Some(m) ==> m.0 <= m.1 <= word.spec_bytes().len(),
    ensures
        ({
            let f = match found {
                Some(m) => Some((m.0 as int, m.1 as int)),
                None => None,
            };
            &&& r is Ok <==> word_value_at(kind, word.spec_bytes(), f) is Ok
            &&& r matches Ok(v) ==> word_value_at(kind, word.spec_bytes(), f) == Ok::<
                TemplateValueView,
                TemplateError,
            >(v@)
            &&& r matches Err(e) ==> word_value_at(kind, word.spec_bytes(), f) == Err::<
                TemplateValueView,
                TemplateError,
            >(e)
        }),
{
    reveal(word_value_at);
    let b = word.as_bytes();
    let (s, e) = match found {
        Some(m) => m,
        None => {
            return Err(TemplateError::NotFound(kind));
        },
    };
    if s != 0 {
        return Err(TemplateError::NotWholeWord(kind));
    }
    let is_decimals = match kind {
        TemplateKind::Decimals => true,
        _ => false,
    };
    if e != b.len() {
        return Err(TemplateError::NotWholeWord(kind));
    }
    let matched = slice_range(b, 0, e);
    match kind {
        TemplateKind::EthAddr => {
            if matched.len() != 42 {
                return Err(TemplateError::NotFound(kind));
            }
            let digits = slice_range(matched.as_slice(), 2, 42);
            let text = match utf8_string(digits.as_slice()) {
                Some(t) => t,
                None => {
                    return Err(TemplateError::NotFound(kind));
                },
            };
            match decode_hex(text.as_str()) {
                Some(x) => if x.len() == 20 {
                    Ok(TemplateValue::EthAddr(x))
                } else {
                    Err(TemplateError::NotFound(kind))
                },
                None => Err(TemplateError::NotFound(kind)),
            }
        },
        TemplateKind::Uint => {
            let t = cut_div_end(matched);
            if !ascii_digits_of(t.as_slice()) {
                return Err(TemplateError::NotFound(kind));
            }
            match parse_u256(t.as_slice()) {
                Some(u) => Ok(TemplateValue::Uint(u)),
                None => Err(TemplateError::OutOfRange(kind)),
            }
        },
        TemplateKind::Int => {
            let t = cut_div_end(matched);
            let negative = t.len() > 0 && t[0] == 45;
            let digits = if negative {
                slice_range(t.as_slice(), 1, t.len())
            } else {
                t
            };
            assert(negative ==> digits@ =~= t@.drop_first());
            if !ascii_digits_of(digits.as_slice()) {
                return Err(TemplateError::NotFound(kind));
            }
            let mag = match parse_u256(digits.as_slice()) {
                Some(u) => u,
                None => {
                    proof {
                        vstd::arithmetic::power2::lemma_pow2_strictly_increases(255, 256);
                    }
                    return Err(TemplateError::OutOfRange(kind));
                },
            };
            // 2^255 is the top limb's highest bit
            let top: u64 = 0x8000_0000_0000_0000;
            proof {
                crate::field::lemma_pow2_limbs();
                lemma_pow2_adds(192, 63);
                vstd::arithmetic::power2::lemma2_to64_rest();
                assert(pow2(255) == pow2(192) * 0x8000_0000_0000_0000);
            }
            let l = mag.limbs;
            let at_most_top = l[3] < top || (l[3] == top && l[2] == 0 && l[1] == 0 && l[0] == 0);
            let below_top = l[3] < top;
            proof {
                let k = pow2(64);
                let v = mag.value();
                assert(l[0] as nat + k * (l[1] as nat) + (k * k) * (l[2] as nat) < k * k * k)
                    by (nonlinear_arith)
                    requires l[0] < k, l[1] < k, l[2] < k, k == 0x1_0000_0000_0000_0000;
                assert(below_top <==> v < pow2(255)) by (nonlinear_arith)
                    requires
                        below_top <==> l[3] < top,
                        top == 0x8000_0000_0000_0000,
                        v == l[0] as nat + k * (l[1] as nat) + (k * k) * (l[2] as nat) + (k * k * k) * (l[3] as nat),
                        pow2(255) == (k * k * k) * top,
                        l[0] as nat + k * (l[1] as nat) + (k * k) * (l[2] as nat) < k * k * k,
                        k == pow2(64), pow2(128) == k * k, pow2(192) == k * k * k;
                assert(at_most_top <==> v <= pow2(255)) by (nonlinear_arith)
                    requires
                        at_most_top <==> (l[3] < top || (l[3] == top && l[2] == 0 && l[1] == 0 && l[0] == 0)),
                        top == 0x8000_0000_0000_0000,
                        v == l[0] as nat + k * (l[1] as nat) + (k * k) * (l[2] as nat) + (k * k * k) * (l[3] as nat),
                        pow2(255) == (k * k * k) * top,
                        l[0] as nat + k * (l[1] as nat) + (k * k) * (l[2] as nat) < k * k * k,
                        k == 0x1_0000_0000_0000_0000;
            }
            if (negative && !at_most_top) || (!negative && !below_top) {
                return Err(TemplateError::OutOfRange(kind));
            }
            Ok(TemplateValue::Int(I256 { negative, magnitude: mag }))
        },
        _ => {
            let t = cut_div_end(matched);
            match utf8_string(t.as_slice()) {
                Some(text) => if is_decimals {
                    Ok(TemplateValue::Decimals(text))
                } else {
                    Ok(TemplateValue::String(text))
                },
                None => Err(TemplateError::InvalidUtf8),
            }
        },
    }
}

/// The views of a sequence of template values.
pub open spec fn values_view(vs: Seq<TemplateValue>) -> Seq<TemplateValueView> {
    vs.map_values(|v: TemplateValue| v@)
}

/// The texts of a sequence of strings.
pub open spec fn strings_view(ts: Seq<String>) -> Seq<Seq<char>> {
    ts.map_values(|t: String| t@)
}

proof fn lemma_template_error_persists(ws: Seq<Seq<char>>, ts: Seq<Seq<char>>, j: int, k: int)
    requires
        0 <= j <= k <= ts.len(),
        template_values(ws, ts.subrange(0, j)) is Err,
    ensures
        template_values(ws, ts.subrange(0, k)) == template_values(ws, ts.subrange(0, j)),
    decreases k - j,
{
    if k > j {
        lemma_template_error_persists(ws, ts, j, k - 1);
        assert(ts.subrange(0, k).drop_last() =~= ts.subrange(0, k - 1));
    }
}

/// Reads the values of the placeholders of `templates` from the words of `input`,
/// each template word standing against the word of `input` at the same place.
pub fn extract_template_vals(input: &str, templates: &Vec<String>) -> (r: Result<
    Vec<TemplateValue>,
    TemplateError,
>)
    ensures
        r is Ok <==> template_values(whitespace_split(input@), strings_view(templates@)) is Ok,
        r matches Ok(vs) ==> template_values(whitespace_split(input@), strings_view(templates@))
            == Ok::<Seq<TemplateValueView>, TemplateError>(values_view(vs@)),
        r matches Err(e) ==> template_values(whitespace_split(input@), strings_view(templates@))
            == Err::<Seq<TemplateValueView>, TemplateError>(e),
{
    let words = split_words(input);
    assert(strings_view(words@) =~= whitespace_split(input@));
    template_vals_from_words(&words, templates)
}

/// Reads the values of the placeholders of `templates` from `words`, each
/// template word standing against the word at the same place.
pub fn template_vals_from_words(words: &Vec<String>, templates: &Vec<String>) -> (r: Result<
    Vec<TemplateValue>,
    TemplateError,
>)
    ensures
        r is Ok <==> template_values(strings_view(words@), strings_view(templates@)) is Ok,
        r matches Ok(vs) ==> template_values(strings_view(words@), strings_view(templates@))
            == Ok::<Seq<TemplateValueView>, TemplateError>(values_view(vs@)),
        r matches Err(e) ==> template_values(strings_view(words@), strings_view(templates@))
            == Err::<Seq<TemplateValueView>, TemplateError>(e),
{
    let ghost ws = strings_view(words@);
    let ghost ts = strings_view(templates@);
    let mut vals: Vec<TemplateValue> = Vec::new();
    let mut i: usize = 0;
    assert(ts.subrange(0, 0) =~= Seq::<Seq<char>>::empty());
    assert(values_view(vals@) =~= Seq::<TemplateValueView>::empty());
    while i < templates.len()
        invariant
            i <= templates@.len(),
            ws == strings_view(words@),
            ts == strings_view(templates@),
            words@.len() == ws.len(),
            forall|j: int| 0 <= j < words@.len() ==> #[trigger] words@[j]@ == ws[j],
            template_values(ws, ts.subrange(0, i as int)) == Ok::<
                Seq<TemplateValueView>,
                TemplateError,
            >(values_view(vals@)),
        decreases templates@.len() - i,
    {
        let ghost prev = ts.subrange(0, i as int);
        assert(ts.subrange(0, i + 1).drop_last() =~= prev);
        assert(ts.subrange(0, i + 1).last() == templates@[i as int]@);
        let kind = template_kind(templates[i].as_str());
        let ghost cur = ts.subrange(0, i + 1);
        assert(kind == kind_of(cur.last()));
        if kind == TemplateKind::Fixed {
            assert(template_values(ws, cur) == template_values(ws, prev));
        }
        if kind != TemplateKind::Fixed {
            if i >= words.len() {
                proof {
                    assert(template_values(ws, cur) == Err::<Seq<TemplateValueView>, TemplateError>(
                        TemplateError::MissingWord,
                    ));
                    lemma_template_error_persists(ws, ts, i + 1, ts.len() as int);
                    assert(ts.subrange(0, ts.len() as int) =~= ts);
                }
                return Err(TemplateError::MissingWord);
            }
            match read_word(kind, words[i].as_str()) {
                Ok(v) => {
                    let ghost before = vals@;
                    vals.push(v);
                    assert(vals@.drop_last() =~= before);
                    assert(template_values(ws, cur) == Ok::<Seq<TemplateValueView>, TemplateError>(
                        values_view(before).push(v@),
                    ));
                    assert(values_view(vals@) =~= values_view(vals@.drop_last()).push(v@));
                },
                Err(e) => {
                    proof {
                        assert(template_values(ws, cur) == Err::<Seq<TemplateValueView>, TemplateError>(e));
                        lemma_template_error_persists(ws, ts, i + 1, ts.len() as int);
                        assert(ts.subrange(0, ts.len() as int) =~= ts);
                    }
                    return Err(e);
                },
            }
        }
        i = i + 1;
    }
    assert(ts.subrange(0, templates@.len() as int) =~= ts);
    Ok(vals)
}

/// The bytes of a command from its HTML part on, where it has one.
pub open spec fn html_part(b: Seq<u8>) -> Seq<u8> {
    if regex_valid(HTML_PART_REGEX@) {
        match regex_first_match(HTML_PART_REGEX@, b) {
            Some(m) => b.subrange(m.1, b.len() as int),
            None => b,
        }
    } else {
        b
    }
}

/// The pattern that a template word stands for.
pub open spec fn template_piece(t: Seq<char>) -> Seq<char> {
    match kind_of(t) {
        TemplateKind::String => STRING_REGEX@,
        TemplateKind::Uint => UINT_REGEX@,
        TemplateKind::Int => INT_REGEX@,
        TemplateKind::Decimals => DECIMALS_REGEX@,
        TemplateKind::EthAddr => ETH_ADDR_REGEX@,
        TemplateKind::Fixed => regex_escaped(t),
    }
}

/// The pattern of a whole template: the patterns of its words joined by white space.
pub open spec fn command_pattern(ts: Seq<Seq<char>>) -> Seq<char>
    decreases ts.len(),
{
    if ts.len() == 0 {
        Seq::empty()
    } else if ts.len() == 1 {
        template_piece(ts[0])
    } else {
        command_pattern(ts.drop_last()) + WORD_SEPARATOR_REGEX@ + template_piece(ts.last())
    }
}

/// The values that a command gives for a template: the first match of the
/// template's pattern in the command (from its HTML part on, where it has one)
/// is cut into words, which are read against the template's words.
pub open spec fn command_values(input: Seq<char>, ts: Seq<Seq<char>>) -> Result<
    Seq<TemplateValueView>,
    TemplateError,
> {
    let text = html_part(vstd::utf8::encode_utf8(input));
    let p = command_pattern(ts);
    if !regex_valid(p) {
        Err(TemplateError::InvalidTemplate)
    } else {
        match regex_first_match(p, text) {
            None => Err(TemplateError::NoMatch),
            Some(m) => {
                let rest = text.subrange(m.0, text.len() as int);
                if !valid_utf8(rest) {
                    Err(TemplateError::InvalidUtf8)
                } else {
                    template_values(whitespace_split(decode_utf8(rest)), ts)
                }
            },
        }
    }
}

fn piece_of(t: &String) -> (r: String)
    ensures
        r@ == template_piece(t@),
{
    let mut r = String::new();
    match template_kind(t.as_str()) {
        TemplateKind::String => r.append(STRING_REGEX),
        TemplateKind::Uint => r.append(UINT_REGEX),
        TemplateKind::Int => r.append(INT_REGEX),
        TemplateKind::Decimals => r.append(DECIMALS_REGEX),
        TemplateKind::EthAddr => r.append(ETH_ADDR_REGEX),
        TemplateKind::Fixed => {
            let e = escape_regex(t.as_str());
            r.append(e.as_str());
        },
    }
    r
}

/// Reads the values of the placeholders of `templates` from a command: finds the
/// first match of the template's pattern in the command, from its HTML part on
/// where it has one, and reads the words from there against the template's words.
pub fn extract_template_vals_from_command(input: &str, templates: Vec<String>) -> (r: Result<
    Vec<TemplateValue>,
    TemplateError,
>)
    ensures
        r is Ok <==> command_values(input@, strings_view(templates@)) is Ok,
        r matches Ok(vs) ==> command_values(input@, strings_view(templates@)) == Ok::<
            Seq<TemplateValueView>,
            TemplateError,
        >(values_view(vs@)),
        r matches Err(e) ==> command_values(input@, strings_view(templates@)) == Err::<
            Seq<TemplateValueView>,
            TemplateError,
        >(e),
{
    let ghost ts = strings_view(templates@);
    let b = input.as_bytes();
    let text = match regex_find(HTML_PART_REGEX, b) {
        Ok(Some(m)) => slice_range(b, m.1, b.len()),
        _ => slice_range(b, 0, b.len()),
    };
    assert(b@.subrange(0, b@.len() as int) =~= b@);
    let mut pattern = String::new();
    let mut i: usize = 0;
    while i < templates.len()
        invariant
            i <= templates@.len(),
            ts == strings_view(templates@),
            pattern@ == command_pattern(ts.subrange(0, i as int)),
        decreases templates@.len() - i,
    {
        let piece = piece_of(&templates[i]);
        let ghost cur = ts.subrange(0, i + 1);
        assert(cur.drop_last() =~= ts.subrange(0, i as int));
        if i > 0 {
            pattern.append(WORD_SEPARATOR_REGEX);
        } else {
            assert(pattern@ =~= Seq::<char>::empty());
        }
        pattern.append(piece.as_str());
        assert(pattern@ =~= command_pattern(cur));
        i = i + 1;
    }
    assert(ts.subrange(0, templates@.len() as int) =~= ts);
    let start = match regex_find(pattern.as_str(), text.as_slice()) {
        Err(_) => {
            return Err(TemplateError::InvalidTemplate);
        },
        Ok(None) => {
            return Err(TemplateError::NoMatch);
        },
        Ok(Some(m)) => m.0,
    };
    let rest = slice_range(text.as_slice(), start, text.len());
    let rest_text = match utf8_string(rest.as_slice()) {
        Some(t) => t,
        None => {
            return Err(TemplateError::InvalidUtf8);
        },
    };
    extract_template_vals(rest_text.as_str(), &templates)
}

/// `n` ASCII zeros.
pub open spec fn ascii_zeros(n: nat) -> Seq<u8> {
    Seq::new(n, |i: int| 48u8)
}

/// The integer that a decimal amount stands for once scaled by
/// `10^decimal_size`: the digits before the point, then those after it,
/// then zeros up to `decimal_size` fractional digits.
pub open spec fn scaled_decimal(s: Seq<char>, decimal_size: nat) -> Result<nat, TemplateError> {
    let b = vstd::utf8::encode_utf8(s);
    scaled_decimal_at(
        b,
        if regex_valid(DECIMAL_POINT_REGEX@) {
            regex_first_match(DECIMAL_POINT_REGEX@, b)
        } else {
            None
        },
        decimal_size,
    )
}

/// The scaled integer of the amount written in the bytes `b`, whose point, if
/// any, is the match `point`.
pub open spec fn scaled_decimal_at(b: Seq<u8>, point: Option<(int, int)>, decimal_size: nat) -> Result<
    nat,
    TemplateError,
> {
    let (before, after) = match point {
        Some(m) => (b.subrange(0, m.0), b.subrange(m.1, b.len() as int)),
        None => (b, Seq::empty()),
    };
    if after.len() > decimal_size {
        Err(TemplateError::TooManyDecimals)
    } else {
        let digits = before + after + ascii_zeros((decimal_size - after.len()) as nat);
        if !is_ascii_digits(digits) {
            Err(TemplateError::NotFound(TemplateKind::Decimals))
        } else if parse_dec_bytes(digits) >= pow2(256) {
            Err(TemplateError::OutOfRange(TemplateKind::Decimals))
        } else {
            Ok(parse_dec_bytes(digits))
        }
    }
}

/// Converts a decimal amount to an unsigned integer scaled by `10^decimal_size`;
/// an amount with more fractional digits than that is refused.
pub fn decimals_str_to_uint(s: &str, decimal_size: u8) -> (r: Result<U256, TemplateError>)
    ensures
        r is Ok <==> scaled_decimal(s@, decimal_size as nat) is Ok,
        r matches Ok(u) ==> scaled_decimal(s@, decimal_size as nat) == Ok::<nat, TemplateError>(
            u.value(),
        ),
        r matches Err(e) ==> scaled_decimal(s@, decimal_size as nat) == Err::<nat, TemplateError>(e),
{
    let point = match regex_find(DECIMAL_POINT_REGEX, s.as_bytes()) {
        Ok(Some(m)) => Some(m),
        _ => None,
    };
    decimals_at_point(s.as_bytes(), point, decimal_size)
}

/// Converts the decimal amount in the bytes `b`, whose point is the match
/// `point` if there is one, to an unsigned integer scaled by `10^decimal_size`.
pub fn decimals_at_point(b: &[u8], point: Option<(usize, usize)>, decimal_size: u8) -> (r: Result<
    U256,
    TemplateError,
>)
    requires
        point matches Some(m) ==> m.0 <= m.1 <= b@.len(),
    ensures
        ({
            let p = match point {
                Some(m) => Some((m.0 as int, m.1 as int)),
                None => None,
            };
            &&& r is Ok <==> scaled_decimal_at(b@, p, decimal_size as nat) is Ok
            &&& r matches Ok(u) ==> scaled_decimal_at(b@, p, decimal_size as nat) == Ok::<
                nat,
                TemplateError,
            >(u.value())
            &&& r matches Err(e) ==> scaled_decimal_at(b@, p, decimal_size as nat) == Err::<
                nat,
                TemplateError,
            >(e)
        }),
{
    let (before, after) = match point {
        Some(m) => (slice_range(b, 0, m.0), slice_range(b, m.1, b.len())),
        None => (slice_range(b, 0, b.len()), Vec::new()),
    };
    assert(b@.subrange(0, b@.len() as int) =~= b@);
    let size = decimal_size as usize;
    if after.len() > size {
        return Err(TemplateError::TooManyDecimals);
    }
    let ghost head = before@ + after@;
    let pad: usize = size - after.len();
    let mut digits = before;
    let mut tail = after;
    digits.append(&mut tail);
    assert(digits@ == head);
    let mut k: usize = 0;
    while k < pad
        invariant
            k <= pad,
            digits@ == head + ascii_zeros(k as nat),
        decreases pad - k,
    {
        digits.push(48u8);
        k = k + 1;
        assert(digits@ =~= head + ascii_zeros(k as nat));
    }
    if !ascii_digits_of(digits.as_slice()) {
        return Err(TemplateError::NotFound(TemplateKind::Decimals));
    }
    match parse_u256(digits.as_slice()) {
        Some(u) => Ok(u),
        None => Err(TemplateError::OutOfRange(TemplateKind::Decimals)),
    }
}

/// The 32 big-endian bytes of a 256-bit unsigned integer.
pub fn u256_to_bytes32(x: &U256) -> (r: Vec<u8>)
    ensures
        r@.len() == 32,
        be_value(r@) == x.value(),
{
    let mut r = int64_to_bytes(x.limbs[3]);
    let mut b2 = int64_to_bytes(x.limbs[2]);
    let mut b1 = int64_to_bytes(x.limbs[1]);
    let mut b0 = int64_to_bytes(x.limbs[0]);
    let ghost (s3, s2, s1, s0) = (r@, b2@, b1@, b0@);
    r.append(&mut b2);
    r.append(&mut b1);
    r.append(&mut b0);
    proof {
        crate::field::lemma_pow2_limbs();
        lemma_be_value_concat(s3, s2);
        lemma_be_value_concat(s3 + s2, s1);
        lemma_be_value_concat(s3 + s2 + s1, s0);
        assert(r@ =~= s3 + s2 + s1 + s0);
        let k = pow2(64);
        let (l0, l1, l2, l3) = (x.limbs[0] as nat, x.limbs[1] as nat, x.limbs[2] as nat, x.limbs[3] as nat);
        assert(((l3 * k + l2) * k + l1) * k + l0 == l0 + k * l1 + (k * k) * l2 + (k * k * k) * l3)
            by (nonlinear_arith);
    }
    r
}

/// The 256-bit two's complement of a magnitude: `2^256 - m`, or zero for zero.
pub open spec fn twos_complement(m: nat) -> nat {
    if m == 0 {
        0
    } else {
        (pow2(256) - m) as nat
    }
}

fn negate(x: &U256) -> (r: U256)
    ensures
        r.value() == twos_complement(x.value()),
{
    let l = x.limbs;
    let a0: u64 = l[0];
    let a1: u64 = l[1];
    let a2: u64 = l[2];
    let a3: u64 = l[3];
    let n0: u64 = !a0;
    let n1: u64 = !a1;
    let n2: u64 = !a2;
    let n3: u64 = !a3;
    assert(n0 == 0xffff_ffff_ffff_ffffu64 - a0) by (bit_vector)
        requires n0 == !a0;
    assert(n1 == 0xffff_ffff_ffff_ffffu64 - a1) by (bit_vector)
        requires n1 == !a1;
    assert(n2 == 0xffff_ffff_ffff_ffffu64 - a2) by (bit_vector)
        requires n2 == !a2;
    assert(n3 == 0xffff_ffff_ffff_ffffu64 - a3) by (bit_vector)
        requires n3 == !a3;
    let s0: u128 = n0 as u128 + 1;
    let r0: u64 = (s0 % 0x1_0000_0000_0000_0000) as u64;
    let c0: u128 = s0 / 0x1_0000_0000_0000_0000;
    let s1: u128 = n1 as u128 + c0;
    let r1: u64 = (s1 % 0x1_0000_0000_0000_0000) as u64;
    let c1: u128 = s1 / 0x1_0000_0000_0000_0000;
    let s2: u128 = n2 as u128 + c1;
    let r2: u64 = (s2 % 0x1_0000_0000_0000_0000) as u64;
    let c2: u128 = s2 / 0x1_0000_0000_0000_0000;
    let s3: u128 = n3 as u128 + c2;
    let r3: u64 = (s3 % 0x1_0000_0000_0000_0000) as u64;
    let c3: u128 = s3 / 0x1_0000_0000_0000_0000;
    let r = U256 { limbs: [r0, r1, r2, r3] };
    proof {
        crate::field::lemma_pow2_limbs();
        let k: int = 0x1_0000_0000_0000_0000;
        assert(r.limbs[0] == r0 && r.limbs[1] == r1 && r.limbs[2] == r2 && r.limbs[3] == r3);
        assert(s0 == r0 + k * c0 && s1 == r1 + k * c1 && s2 == r2 + k * c2 && s3 == r3 + k * c3);
        assert(c0 <= 1 && c1 <= 1 && c2 <= 1 && c3 <= 1);
        let v = x.value() as int;
        let rv = r.value() as int;
        assert(rv + (k * k * k * k) * c3 == (k * k * k * k) - v) by (nonlinear_arith)
            requires
                s0 == r0 + k * c0, s1 == r1 + k * c1, s2 == r2 + k * c2, s3 == r3 + k * c3,
                s0 == n0 + 1, s1 == n1 + c0, s2 == n2 + c1, s3 == n3 + c2,
                n0 == k - 1 - a0, n1 == k - 1 - a1, n2 == k - 1 - a2, n3 == k - 1 - a3,
                v == a0 + k * a1 + (k * k) * a2 + (k * k * k) * a3,
                rv == r0 + k * r1 + (k * k) * r2 + (k * k * k) * r3;
        assert(rv < k * k * k * k) by (nonlinear_arith)
            requires rv == r0 + k * r1 + (k * k) * r2 + (k * k * k) * r3, r0 < k, r1 < k, r2 < k, r3 < k, k > 0;
        assert(v < k * k * k * k) by (nonlinear_arith)
            requires v == a0 + k * a1 + (k * k) * a2 + (k * k * k) * a3, a0 < k, a1 < k, a2 < k, a3 < k, k > 0;
        if v == 0 {
            assert(c3 == 1);
        } else {
            assert(c3 == 0);
        }
    }
    r
}

/// The ABI encoding of a single string: the offset word `32`, the length word,
/// then the bytes zero-padded to whole 32-byte words.
pub open spec fn abi_string(b: Seq<u8>) -> Seq<u8> {
    let padded_len = ceil_div(b.len(), 32) * 32;
    be_word(32) + be_word(b.len()) + b + zeros((padded_len - b.len()) as nat)
}

/// A 32-byte big-endian word holding `v`.
pub open spec fn be_word(v: nat) -> Seq<u8> {
    crate::field::be_bytes_from(v, 0, 32)
}

fn word_of(v: u64) -> (r: Vec<u8>)
    ensures
        r@ == be_word(v as nat),
{
    let mut r: Vec<u8> = Vec::new();
    let mut i: usize = 0;
    while i < 32
        invariant
            i <= 32,
            r@ == be_word(v as nat).subrange(0, i as int),
        decreases 32 - i,
    {
        let b: u8 = if i < 24 {
            0
        } else {
            ((v >> ((8 * (31 - i)) as u64)) & 0xff) as u8
        };
        proof {
            let sh = (8 * (31 - i)) as nat;
            crate::field::lemma_pow2_limbs();
            vstd::arithmetic::power2::lemma_pow2_pos(sh);
            if i < 24 {
                if sh > 64 {
                    vstd::arithmetic::power2::lemma_pow2_strictly_increases(64, sh);
                }
                vstd::arithmetic::div_mod::lemma_basic_div(v as int, pow2(sh) as int);
                assert(chunk_of(v as nat, sh, 8) == 0);
            } else {
                vstd::bits::lemma_u64_shr_is_div(v, sh as u64);
                vstd::bits::lemma_u64_pow2_no_overflow(sh);
                let q = v >> (sh as u64);
                assert(q & 0xff == q % 256) by (bit_vector);
            }
        }
        r.push(b);
        i = i + 1;
        assert(r@ =~= be_word(v as nat).subrange(0, i as int));
    }
    r
}

impl TemplateValue {
    /// The ABI encoding of the value: a 32-byte word for an unsigned or signed
    /// integer (two's complement), a decimal amount scaled by `decimal_size`
    /// decimals (18 by default), or an address (twelve zero bytes, then the
    /// address); the dynamic encoding for a string. A fixed word has none.
    pub fn abi_encode(&self, decimal_size: Option<u8>) -> (r: Result<Vec<u8>, TemplateError>)
        requires
            self matches TemplateValue::String(s) ==> vstd::utf8::encode_utf8(s@).len() + 128 <= usize::MAX,
        ensures
            match self {
                TemplateValue::String(s) => r matches Ok(b) && b@ == abi_string(vstd::utf8::encode_utf8(s@)),
                TemplateValue::Uint(u) => r matches Ok(b) && b@.len() == 32 && be_value(b@) == u.value(),
                TemplateValue::Int(i) => r matches Ok(b) && b@.len() == 32 && be_value(b@) == if i.negative {
                    twos_complement(i.magnitude.value())
                } else {
                    i.magnitude.value()
                },
                TemplateValue::Decimals(s) => match scaled_decimal(
                    s@,
                    match decimal_size {
                        Some(d) => d as nat,
                        None => 18,
                    },
                ) {
                    Ok(v) => r matches Ok(b) && b@.len() == 32 && be_value(b@) == v,
                    Err(e) => r == Err::<Vec<u8>, TemplateError>(e),
                },
                TemplateValue::EthAddr(a) => if a@.len() == 20 {
                    r matches Ok(b) && b@ == zeros(12) + a@
                } else {
                    r == Err::<Vec<u8>, TemplateError>(TemplateError::InvalidAddress)
                },
                TemplateValue::Fixed(_) => r == Err::<Vec<u8>, TemplateError>(TemplateError::FixedValue),
            },
    {
        match self {
            TemplateValue::String(s) => {
                let b = s.as_str().as_bytes();
                let n = b.len();
                let mut r = word_of(32);
                let mut len_word = word_of(n as u64);
                r.append(&mut len_word);
                let mut i: usize = 0;
                let ghost head = r@;
                while i < n
                    invariant
                        i <= n == b@.len(),
                        r@ == head + b@.subrange(0, i as int),
                    decreases n - i,
                {
                    r.push(b[i]);
                    i = i + 1;
                    assert(r@ =~= head + b@.subrange(0, i as int));
                }
                assert(b@.subrange(0, n as int) =~= b@);
                let padded: usize = (n / 32 + if n % 32 != 0 { 1 } else { 0 }) * 32;
                assert(padded as nat == ceil_div(n as nat, 32) * 32) by (nonlinear_arith)
                    requires padded == (n / 32 + if n % 32 != 0 { 1int } else { 0int }) * 32;
                let mut k: usize = n;
                while k < padded
                    invariant
                        n <= k <= padded,
                        r@ == head + b@ + zeros((k - n) as nat),
                    decreases padded - k,
                {
                    r.push(0);
                    k = k + 1;
                    assert(r@ =~= head + b@ + zeros((k - n) as nat));
                }
                Ok(r)
            },
            TemplateValue::Uint(u) => Ok(u256_to_bytes32(u)),
            TemplateValue::Int(i) => if i.negative {
                Ok(u256_to_bytes32(&negate(&i.magnitude)))
            } else {
                Ok(u256_to_bytes32(&i.magnitude))
            },
            TemplateValue::Decimals(s) => {
                let d: u8 = match decimal_size {
                    Some(d) => d,
                    None => 18,
                };
                match decimals_str_to_uint(s.as_str(), d) {
                    Ok(u) => Ok(u256_to_bytes32(&u)),
                    Err(e) => Err(e),
                }
            },
            TemplateValue::EthAddr(a) => {
                if a.len() != 20 {
                    return Err(TemplateError::InvalidAddress);
                }
                let mut r: Vec<u8> = Vec::new();
                let mut i: usize = 0;
                while i < 12
                    invariant
                        i <= 12,
                        r@ == zeros(i as nat),
                    decreases 12 - i,
                {
                    r.push(0);
                    i = i + 1;
                    assert(r@ =~= zeros(i as nat));
                }
                let mut t = a.clone();
                r.append(&mut t);
                Ok(r)
            },
            TemplateValue::Fixed(_) => Err(TemplateError::FixedValue),
        }
    }
}

} // verus!
