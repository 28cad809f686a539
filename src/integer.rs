//! INTEGER values: big-endian two's complement on the wire, signed decimal
//! (or hexadecimal, past eight octets) in text.
use vstd::prelude::*;
use crate::error::{agrees, describe, described, fail, EncodeError, EncodeErrorKind, Failure};
use crate::hex::{hex_chars_to_bytes, hex_result, hex_upper, lemma_hex_upper_reads_back, push_hex};
use crate::length::{be_fixed, be_value, lemma_be_value_bound, lemma_pow256_values, pow256, push_be_fixed};
use crate::text::{
    chars_of, int_str, lemma_int_str_parse, lemma_nat_str, parse_i64_chars, parse_i64_spec,
    push_char, push_decimal, sub_chars,
};
use vstd::arithmetic::div_mod::{lemma_div_denominator, lemma_fundamental_div_mod};

verus! {

/// The value of big-endian two's-complement octets.
pub open spec fn signed_be(b: Seq<u8>) -> int {
    if b.len() > 0 && b[0] >= 128 {
        be_value(b) - pow256(b.len())
    } else {
        be_value(b) as int
    }
}

/// How an INTEGER's content is shown: decimal up to eight octets,
/// otherwise `0x` and the octets in uppercase hexadecimal.
pub open spec fn integer_text(b: Seq<u8>) -> Seq<char> {
    if b.len() == 0 {
        seq!['0']
    } else if b.len() <= 8 {
        int_str(signed_be(b))
    } else {
        seq!['0', 'x'] + hex_upper(b)
    }
}

/// Renders the content of an INTEGER.
pub fn decode_integer(data: &[u8]) -> (r: String)
    ensures
        r@ == integer_text(data@),
{
    let mut s = String::new();
    if data.len() == 0 {
        push_char(&mut s, '0');
        return s;
    }
    if data.len() <= 8 {
        let mut u: u128 = 0;
        let mut p: u128 = 1;
        let mut i: usize = 0;
        proof {
            lemma_pow256_values();
        }
        while i < data.len()
            invariant
                i <= data.len() <= 8,
                u == be_value(data@.take(i as int)),
                p == pow256(i as nat),
                u < p,
                p <= pow256(8),
            decreases data.len() - i,
        {
            proof {
                lemma_pow256_values();
                assert(data@.take(i + 1).drop_last() =~= data@.take(i as int));
                lemma_be_value_bound(data@.take(i + 1));
                assert(pow256((i + 1) as nat) <= pow256(8)) by {
                    lemma_pow256_monotone((i + 1) as nat, 8);
                }
            }
            u = u * 256 + data[i] as u128;
            p = p * 256;
            i = i + 1;
        }
        assert(data@.take(data.len() as int) =~= data@);
        if data[0] >= 128 {
            push_char(&mut s, '-');
            push_decimal(&mut s, p - u);
        } else {
            push_decimal(&mut s, u);
        }
    } else {
        push_char(&mut s, '0');
        push_char(&mut s, 'x');
        push_hex(&mut s, data);
    }
    s
}

pub proof fn lemma_pow256_monotone(a: nat, b: nat)
    requires
        a <= b,
    ensures
        1 <= pow256(a) <= pow256(b),
    decreases b,
{
    if b > 0 {
        if a < b {
            lemma_pow256_monotone(a, (b - 1) as nat);
        } else {
            lemma_pow256_monotone((a - 1) as nat, (b - 1) as nat);
        }
    }
}

/// Whether `k` two's-complement octets can hold `v`.
pub open spec fn fits_octets(v: int, k: nat) -> bool {
    k >= 1 && -(128 * pow256((k - 1) as nat)) <= v < 128 * pow256((k - 1) as nat)
}

/// The fewest octets, from `k` up to eight, that hold `v`.
pub open spec fn twos_width_from(v: int, k: nat) -> nat
    decreases 8 - k,
{
    if k >= 8 || fits_octets(v, k) {
        k
    } else {
        twos_width_from(v, k + 1)
    }
}

/// The minimal big-endian two's-complement encoding of `v`.
pub open spec fn twos_octets(v: int) -> Seq<u8> {
    let k = twos_width_from(v, 1);
    be_fixed(
        (if v < 0 {
            v + pow256(k)
        } else {
            v
        }) as nat,
        k,
    )
}

/// The content octets that INTEGER text stands for: `0x` and hexadecimal
/// digits, or a signed decimal that fits in 64 bits.
pub open spec fn integer_octets(s: Seq<char>) -> Result<Seq<u8>, Failure> {
    if s.len() >= 2 && s[0] == '0' && s[1] == 'x' {
        hex_result(s.subrange(2, s.len() as int))
    } else {
        match parse_i64_spec(s) {
            Some(v) => Ok(twos_octets(v)),
            None => Err(fail(EncodeErrorKind::InvalidValue, described("Invalid integer value: "@, s, "a decimal integer of 64 bits, or 0x and hexadecimal digits"@))),
        }
    }
}

/// The minimal two's-complement octets of `n`.
pub fn twos_complement_octets(n: i64) -> (r: Vec<u8>)
    ensures
        r@ == twos_octets(n as int),
        1 <= r@.len() <= 8,
{
    proof {
        lemma_pow256_values();
    }
    let mut k: usize = 1;
    let mut half: i128 = 128;
    while k < 8 && !(-half <= n as i128 && (n as i128) < half)
        invariant
            1 <= k <= 8,
            half == 128 * pow256((k - 1) as nat),
            twos_width_from(n as int, k as nat) == twos_width_from(n as int, 1),
        decreases 8 - k,
    {
        proof {
            lemma_pow256_monotone(k as nat, 7);
        }
        k = k + 1;
        half = half * 256;
    }
    assert(fits_octets(n as int, k as nat));
    let u: u128 = if n < 0 {
        (n as i128 + 2 * half) as u128
    } else {
        n as u128
    };
    let mut out: Vec<u8> = Vec::new();
    push_be_fixed(&mut out, u, k);
    proof {
        lemma_be_fixed_len(u as nat, k as nat);
        assert(out@ =~= twos_octets(n as int));
    }
    out
}

pub proof fn lemma_be_fixed_len(u: nat, k: nat)
    ensures
        be_fixed(u, k).len() == k,
    decreases k,
{
    if k > 0 {
        lemma_be_fixed_len(u / 256, (k - 1) as nat);
    }
}

/// Parses INTEGER text back into content octets.
pub fn encode_integer(value: &str) -> (r: Result<Vec<u8>, EncodeError>)
    ensures
        agrees(r, integer_octets(value@)),
{
    let v = chars_of(value);
    if v.len() >= 2 && v[0] == '0' && v[1] == 'x' {
        let rest = sub_chars(&v, 2, v.len());
        return hex_chars_to_bytes(&rest);
    }
    match parse_i64_chars(&v) {
        Some(n) => Ok(twos_complement_octets(n)),
        None => Err(EncodeError::InvalidValue(describe("Invalid integer value: ", &v, "a decimal integer of 64 bits, or 0x and hexadecimal digits"))),
    }
}

proof fn lemma_twos_width(v: int, k: nat)
    requires
        1 <= k <= 8,
        fits_octets(v, 8),
    ensures
        k <= twos_width_from(v, k) <= 8,
        fits_octets(v, twos_width_from(v, k)),
    decreases 8 - k,
{
    if k < 8 && !fits_octets(v, k) {
        lemma_twos_width(v, k + 1);
    }
}

proof fn lemma_be_fixed_value(u: nat, k: nat)
    requires
        u < pow256(k),
    ensures
        be_value(be_fixed(u, k)) == u,
        k >= 1 ==> be_fixed(u, k)[0] == u / pow256((k - 1) as nat),
    decreases k,
{
    if k > 0 {
        let p = pow256((k - 1) as nat);
        lemma_pow256_monotone(0, (k - 1) as nat);
        lemma_fundamental_div_mod(u as int, 256);
        assert(u / 256 < p) by (nonlinear_arith)
            requires
                u < 256 * p,
                u == 256 * (u / 256) + u % 256,
                0 <= u % 256 < 256,
        ;
        lemma_be_fixed_value(u / 256, (k - 1) as nat);
        lemma_be_fixed_len(u / 256, (k - 1) as nat);
        assert(be_fixed(u, k).drop_last() == be_fixed(u / 256, (k - 1) as nat));
        if k == 1 {
            assert(pow256(0) == 1);
            assert(u % 256 == u);
            assert(u / 1 == u);
            assert(be_fixed(u, k)[0] == (u % 256) as u8);
        } else {
            assert(p == 256 * pow256((k - 2) as nat));
            lemma_div_denominator(u as int, 256, pow256((k - 2) as nat) as int);
            assert(be_fixed(u, k)[0] == be_fixed(u / 256, (k - 1) as nat)[0]);
        }
    }
}

/// The leading octet of a big-endian run is its value's top digit in base 256.
proof fn lemma_be_value_top(b: Seq<u8>)
    requires
        b.len() >= 1,
    ensures
        be_value(b) / pow256((b.len() - 1) as nat) == b[0],
    decreases b.len(),
{
    let x = be_value(b);
    if b.len() == 1 {
        assert(b.drop_last() =~= Seq::<u8>::empty());
        assert(be_value(b.drop_last()) == 0);
        assert(x == b[0] as nat);
        assert(pow256(0) == 1);
        assert(x / 1 == x);
    } else {
        let c = b.drop_last();
        lemma_be_value_top(c);
        lemma_pow256_monotone(0, (b.len() - 2) as nat);
        let p = pow256((b.len() - 2) as nat);
        assert(pow256((b.len() - 1) as nat) == 256 * p);
        lemma_div_denominator(x as int, 256, p as int);
        let y = be_value(c);
        assert(x == y * 256 + b.last() as nat);
        assert(x / 256 == y) by (nonlinear_arith)
            requires
                x == y * 256 + b.last() as nat,
                (b.last() as nat) < 256,
        ;
        assert(c[0] == b[0]);
        assert(x / (256 * p) == y / p);
    }
}

proof fn lemma_top_octet(u: nat, p: nat)
    requires
        p > 0,
    ensures
        (u / p >= 128) == (u >= 128 * p),
{
    lemma_fundamental_div_mod(u as int, p as int);
    let q = u / p;
    let r = u % p;
    assert((q >= 128) == (u >= 128 * p)) by (nonlinear_arith)
        requires
            u == p * q + r,
            0 <= r < p,
            q >= 0,
    ;
}

/// Integer bijection: the decimal text of every 64-bit integer reads back
/// as its minimal two's-complement octets, and those octets render as the
/// same text.
pub proof fn lemma_integer_round_trip(v: int)
    requires
        i64::MIN <= v <= i64::MAX,
    ensures
        integer_octets(int_str(v)) == Ok::<Seq<u8>, Failure>(twos_octets(v)),
        integer_text(twos_octets(v)) == int_str(v),
{
    lemma_pow256_values();
    lemma_int_str_parse(v);
    let s = int_str(v);
    if v < 0 {
        assert(s[0] == '-');
    } else {
        lemma_nat_str(v as nat);
        if s.len() >= 2 {
            assert(crate::text::is_digit(s[1]));
        }
    }
    assert(fits_octets(v, 8));
    lemma_twos_width(v, 1);
    let k = twos_width_from(v, 1);
    let p = pow256((k - 1) as nat);
    assert(pow256(k) == 256 * p);
    lemma_pow256_monotone(0, (k - 1) as nat);
    let u: nat = (if v < 0 {
        v + pow256(k)
    } else {
        v
    }) as nat;
    lemma_be_fixed_value(u, k);
    lemma_be_fixed_len(u, k);
    lemma_top_octet(u, p);
    let b = twos_octets(v);
    assert(b == be_fixed(u, k));
    assert(signed_be(b) == v);
}

/// INTEGER content that is the minimal encoding of its value, in one to
/// eight octets, renders as text that reads back as the same octets.
pub proof fn lemma_integer_content_round_trip(b: Seq<u8>)
    requires
        1 <= b.len() <= 8,
        b == twos_octets(signed_be(b)),
    ensures
        integer_octets(integer_text(b)) == Ok::<Seq<u8>, Failure>(b),
{
    lemma_pow256_values();
    lemma_be_value_bound(b);
    lemma_pow256_monotone((b.len() - 1) as nat, 7);
    let p = pow256((b.len() - 1) as nat);
    assert(pow256(b.len()) == 256 * p);
    lemma_be_value_top(b);
    lemma_top_octet(be_value(b), p);
    lemma_integer_round_trip(signed_be(b));
}

/// INTEGER content longer than eight octets renders as `0x` and hexadecimal
/// digits, which read back as the same octets.
pub proof fn lemma_long_integer_round_trip(b: Seq<u8>)
    requires
        b.len() > 8,
    ensures
        integer_octets(integer_text(b)) == Ok::<Seq<u8>, Failure>(b),
{
    let s = integer_text(b);
    assert(s.subrange(2, s.len() as int) =~= hex_upper(b));
    lemma_hex_upper_reads_back(b);
}

} // verus!
