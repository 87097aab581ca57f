//! Little-endian values of byte strings and the bit ranges of those values.
use vstd::arithmetic::div_mod::{
    lemma_div_denominator, lemma_fundamental_div_mod, lemma_fundamental_div_mod_converse,
    lemma_mod_breakdown, lemma_mod_multiples_vanish,
};
use vstd::arithmetic::power2::{lemma2_to64, lemma_pow2_adds, lemma_pow2_pos, pow2};
use vstd::prelude::*;

verus! {

/// The little-endian value of a byte string.
pub open spec fn le_value(s: Seq<u8>) -> nat
    decreases s.len(),
{
    if s.len() == 0 {
        0
    } else {
        s[0] as nat + 256 * le_value(s.drop_first())
    }
}

/// The `width` bits of `n` that start at bit `start`, as a number.
pub open spec fn chunk_of(n: nat, start: nat, width: nat) -> nat {
    (n / pow2(start)) % pow2(width)
}

proof fn lemma_div_shift(x: nat, d: nat, q: nat)
    requires
        d > 0,
    ensures
        (d * q + x) / d == q + x / d,
{
    lemma_fundamental_div_mod(x as int, d as int);
    assert(d * q + x == d * (q + x / d) + x % d) by (nonlinear_arith)
        requires x == d * (x / d) + x % d;
    lemma_fundamental_div_mod_converse((d * q + x) as int, d as int, (q + x / d) as int, (x % d) as int);
}

/// Bit `k` of the little-endian value of `s` is bit `k % 8` of byte `k / 8`.
pub proof fn lemma_le_bit(s: Seq<u8>, k: nat)
    ensures
        chunk_of(le_value(s), k, 1) == if k / 8 < s.len() {
            (s[(k / 8) as int] as nat / pow2(k % 8)) % 2
        } else {
            0
        },
    decreases s.len(),
{
    lemma2_to64();
    lemma_pow2_pos(k);
    if s.len() == 0 {
        assert(0nat / pow2(k) == 0) by (nonlinear_arith)
            requires pow2(k) > 0;
    } else {
        let n = le_value(s);
        let rest = le_value(s.drop_first());
        let b = s[0] as nat;
        assert(n == b + 256 * rest);
        if k < 8 {
            let e = (8 - k) as nat;
            lemma_pow2_adds(k, e);
            lemma_pow2_pos(e);
            lemma_pow2_adds(1, (e - 1) as nat);
            assert(n == pow2(k) * (pow2(e) * rest) + b) by (nonlinear_arith)
                requires n == b + 256 * rest, pow2(k) * pow2(e) == 256;
            lemma_div_shift(b, pow2(k), pow2(e) * rest);
            assert(pow2(e) * rest == 2 * (pow2((e - 1) as nat) * rest)) by (nonlinear_arith)
                requires pow2(e) == pow2(1) * pow2((e - 1) as nat), pow2(1) == 2;
            lemma_mod_multiples_vanish((pow2((e - 1) as nat) * rest) as int, (b / pow2(k)) as int, 2);
            assert(k / 8 == 0 && k % 8 == k);
        } else {
            let e = (k - 8) as nat;
            lemma_pow2_adds(8, e);
            lemma_pow2_pos(e);
            lemma_div_denominator(n as int, 256, pow2(e) as int);
            lemma_div_shift(b, 256, rest);
            assert(n / 256 == rest);
            lemma_le_bit(s.drop_first(), e);
            assert(e / 8 == k / 8 - 1 && e % 8 == k % 8);
        }
    }
}

/// A bit range of width `a + b` is its low `a` bits plus its high `b` bits
/// shifted up by `a`.
pub proof fn lemma_chunk_split(n: nat, start: nat, a: nat, b: nat)
    ensures
        chunk_of(n, start, a + b) == chunk_of(n, start, a) + pow2(a) * chunk_of(n, start + a, b),
{
    lemma_pow2_pos(start);
    lemma_pow2_pos(a);
    lemma_pow2_pos(b);
    let x = n / pow2(start);
    lemma_pow2_adds(a, b);
    lemma_mod_breakdown(x as int, pow2(a) as int, pow2(b) as int);
    lemma_div_denominator(n as int, pow2(start) as int, pow2(a) as int);
    lemma_pow2_adds(start, a);
}

/// A bit range that reaches past every set bit of `n` holds all of `n` above its start.
pub proof fn lemma_chunk_whole(n: nat, width: nat)
    requires
        n < pow2(width),
    ensures
        chunk_of(n, 0, width) == n,
{
    lemma2_to64();
    vstd::arithmetic::div_mod::lemma_small_mod(n, pow2(width));
}

fn bit_of_byte(b: u8, r: usize) -> (bit: u128)
    requires
        r < 8,
    ensures
        bit as nat == (b as nat / pow2(r as nat)) % 2,
{
    let mut d: u32 = 1;
    let mut t: usize = 0;
    proof {
        lemma2_to64();
    }
    while t < r
        invariant
            t <= r < 8,
            d as nat == pow2(t as nat),
        decreases r - t,
    {
        proof {
            lemma2_to64();
            lemma_pow2_adds(t as nat, 1);
        }
        d = d * 2;
        t = t + 1;
    }
    proof {
        lemma_pow2_pos(r as nat);
    }
    ((b as u32 / d) % 2) as u128
}

/// The `width` bits of the little-endian value of `bytes` that start at bit `start`.
pub fn le_bits_chunk(bytes: &Vec<u8>, start: usize, width: usize) -> (r: u128)
    requires
        width <= 127,
        start + width <= usize::MAX,
    ensures
        r as nat == chunk_of(le_value(bytes@), start as nat, width as nat),
        (r as nat) < pow2(width as nat),
{
    let ghost n = le_value(bytes@);
    let mut acc: u128 = 0;
    let mut p: u128 = 1;
    let mut j: usize = 0;
    proof {
        lemma2_to64();
        assert(chunk_of(n, start as nat, 0) == 0);
    }
    while j < width
        invariant
            j <= width <= 127,
            start + width <= usize::MAX,
            n == le_value(bytes@),
            p as nat == pow2(j as nat),
            acc as nat == chunk_of(n, start as nat, j as nat),
            (acc as nat) < pow2(j as nat),
        decreases width - j,
    {
        let k: usize = start + j;
        let q: usize = k / 8;
        let bit: u128 = if q < bytes.len() {
            bit_of_byte(bytes[q], k % 8)
        } else {
            0
        };
        proof {
            lemma_le_bit(bytes@, k as nat);
            lemma_chunk_split(n, start as nat, j as nat, 1);
            lemma_pow2_adds(j as nat, 1);
            lemma2_to64();
            vstd::arithmetic::power2::lemma_pow2_strictly_increases(j as nat + 1, 128);
            lemma_pow2_adds(64, 64);
            assert(pow2(128) == 0x1_0000_0000_0000_0000_0000_0000_0000_0000);
            assert(bit <= 1);
            assert(acc + bit * p < 2 * p) by (nonlinear_arith)
                requires acc < p, bit <= 1;
            assert(bit as nat == chunk_of(n, (start + j) as nat, 1));
            assert((acc + bit * p) as nat == chunk_of(n, start as nat, j as nat) + pow2(j as nat)
                * chunk_of(n, (start + j) as nat, 1)) by (nonlinear_arith)
                requires
                    bit as nat == chunk_of(n, (start + j) as nat, 1),
                    acc as nat == chunk_of(n, start as nat, j as nat),
                    p as nat == pow2(j as nat);
        }
        acc = acc + bit * p;
        p = p * 2;
        j = j + 1;
    }
    acc
}

} // verus!
