//! BIT STRING values: an unused-bit count and packed bits on the wire; the
//! bits as `0`/`1` characters followed by `(unused bits: N)` in text.
use vstd::prelude::*;
use crate::error::{agrees, describe, described, fail, EncodeError, EncodeErrorKind, Failure};
use crate::text::{lemma_nat_str, occurs_at, rfind_from, skip_ws_back, trim_end, trim_start};
use crate::hex::{hex_chars_to_bytes, hex_result};
use crate::text::{
    chars_of, find, find_chars, is_ws, is_ws_exec, nat_str, parse_unsigned_at_most,
    parse_unsigned_max, push_char, push_decimal, rfind, rfind_chars, skip_ws, sub_chars, trim,
    trim_chars,
};

verus! {

/// `'1'` when bit `pos` (0 is the least significant) of `b` is set.
pub open spec fn bit_char(b: u8, pos: u8) -> char {
    if b & (1u8 << pos) != 0 {
        '1'
    } else {
        '0'
    }
}

/// The bits of `b` from the most significant down to position `low`.
pub open spec fn byte_bits(b: u8, low: nat) -> Seq<char> {
    Seq::new((8 - low) as nat, |j: int| bit_char(b, (7 - j) as u8))
}

/// All eight bits of every octet of `c`.
pub open spec fn full_bits(c: Seq<u8>) -> Seq<char>
    decreases c.len(),
{
    if c.len() == 0 {
        Seq::empty()
    } else {
        full_bits(c.drop_last()) + byte_bits(c.last(), 0)
    }
}

pub open spec fn min8(u: u8) -> nat {
    if u < 8 {
        u as nat
    } else {
        8
    }
}

/// `" (unused bits: N)"` without its leading space when `lead` is false.
pub open spec fn unused_suffix(u: u8, lead: bool) -> Seq<char> {
    (if lead {
        " (unused bits: "@
    } else {
        "(unused bits: "@
    }) + nat_str(u as nat) + ")"@
}

/// How a BIT STRING's content is shown: the bits, the last `u` bits of the
/// final octet left out, then the unused-bit count `u` (the first octet).
pub open spec fn bit_string_text(d: Seq<u8>) -> Seq<char> {
    if d.len() == 0 {
        Seq::empty()
    } else if d.len() == 1 {
        unused_suffix(d[0], false)
    } else {
        let c = d.drop_first();
        full_bits(c.drop_last()) + byte_bits(c.last(), min8(d[0])) + unused_suffix(d[0], true)
    }
}

/// Appends the bits of `b` from the most significant down to position `low`.
fn push_byte_bits(s: &mut String, b: u8, low: u8)
    requires
        low <= 8,
    ensures
        final(s)@ == old(s)@ + byte_bits(b, low as nat),
{
    let mut k: u8 = 8;
    while k > low
        invariant
            low <= k <= 8,
            s@ == old(s)@ + Seq::new((8 - k) as nat, |j: int| bit_char(b, (7 - j) as u8)),
        decreases k,
    {
        k = k - 1;
        let c = if b & (1u8 << k) != 0 {
            '1'
        } else {
            '0'
        };
        push_char(s, c);
        assert(s@ =~= old(s)@ + Seq::new((8 - k) as nat, |j: int| bit_char(b, (7 - j) as u8)));
    }
    assert(s@ =~= old(s)@ + byte_bits(b, low as nat));
}

/// Renders the content of a BIT STRING.
pub fn decode_bit_string(data: &[u8]) -> (r: String)
    ensures
        r@ == bit_string_text(data@),
{
    let mut s = String::new();
    if data.len() == 0 {
        return s;
    }
    let unused = data[0];
    if data.len() == 1 {
        s.append("(unused bits: ");
        push_decimal(&mut s, unused as u128);
        s.append(")");
        return s;
    }
    let ghost c = data@.drop_first();
    let last = data.len() - 1;
    let mut i: usize = 1;
    while i < last
        invariant
            1 <= i <= last,
            last == data.len() - 1,
            c == data@.drop_first(),
            s@ == full_bits(c.take(i - 1)),
        decreases last - i,
    {
        assert(c.take(i as int).drop_last() =~= c.take(i - 1));
        push_byte_bits(&mut s, data[i], 0);
        i = i + 1;
    }
    assert(c.take(last - 1) =~= c.drop_last());
    let low: u8 = if unused < 8 {
        unused
    } else {
        8
    };
    push_byte_bits(&mut s, data[last], low);
    s.append(" (unused bits: ");
    push_decimal(&mut s, unused as u128);
    s.append(")");
    assert(s@ =~= bit_string_text(data@));
    s
}

// ----------------------------------------------------------- encoding

pub open spec fn two_pow(k: nat) -> nat
    decreases k,
{
    if k == 0 {
        1
    } else {
        2 * two_pow((k - 1) as nat)
    }
}

/// Packs the `0` and `1` characters of `s` into octets, most significant bit
/// first, other characters being skipped; `cur` holds the `n` bits of the
/// octet in progress, and a last partial octet is padded with zero bits.
pub open spec fn pack_bits(cur: nat, n: nat, s: Seq<char>) -> Seq<u8>
    decreases s.len(),
{
    if s.len() == 0 {
        if n == 0 {
            Seq::empty()
        } else {
            seq![(cur * two_pow((8 - n) as nat)) as u8]
        }
    } else if s[0] == '0' || s[0] == '1' {
        let c = cur * 2 + if s[0] == '1' {
            1nat
        } else {
            0nat
        };
        if n + 1 == 8 {
            seq![c as u8] + pack_bits(0, 0, s.drop_first())
        } else {
            pack_bits(c, n + 1, s.drop_first())
        }
    } else {
        pack_bits(cur, n, s.drop_first())
    }
}

pub open spec fn unused_marker() -> Seq<char> {
    seq!['(', 'u', 'n', 'u', 's', 'e', 'd', ' ', 'b', 'i', 't', 's', ':']
}

pub open spec fn data_marker() -> Seq<char> {
    seq!['d', 'a', 't', 'a', ':']
}

/// `s` without its trailing `)` characters.
pub open spec fn strip_close(s: Seq<char>) -> Seq<char>
    decreases s.len(),
{
    if s.len() > 0 && s.last() == ')' {
        strip_close(s.drop_last())
    } else {
        s
    }
}

/// The index just past the run of non-whitespace characters that starts at `i`.
pub open spec fn word_end(s: Seq<char>, i: int) -> int
    decreases s.len() - i,
{
    if 0 <= i < s.len() && !is_ws(s[i]) {
        word_end(s, i + 1)
    } else {
        i
    }
}

/// The first whitespace-separated word of `s`, or `0` when there is none.
pub open spec fn first_word(s: Seq<char>) -> Seq<char> {
    let a = skip_ws(s, 0);
    if a >= s.len() {
        seq!['0']
    } else {
        s.subrange(a, word_end(s, a))
    }
}

/// The content octets that BIT STRING text stands for: the canonical
/// `<bits> (unused bits: N)`, or the older `N unused bits, data: <hex>`.
pub open spec fn bit_string_octets(s: Seq<char>) -> Result<Seq<u8>, Failure> {
    match rfind(s, unused_marker()) {
        Some(p) => {
            let bits = trim(s.subrange(0, p));
            let count = trim(strip_close(s.subrange(p + 13, s.len() as int)));
            match parse_unsigned_max(count, 255) {
                Some(u) => Ok(seq![u as u8] + pack_bits(0, 0, bits)),
                None => Err(
                    fail(EncodeErrorKind::InvalidValue, described("Invalid unused bits in bit string: "@, count, "a count from 0 to 255"@)),
                ),
            }
        },
        None => match find(s, data_marker()) {
            Some(p) => {
                let hex = trim(s.subrange(p + 5, s.len() as int));
                match parse_unsigned_max(first_word(s), 255) {
                    Some(u) => match hex_result(hex) {
                        Ok(h) => Ok(seq![u as u8] + h),
                        Err(f) => Err(f),
                    },
                    None => Err(
                        fail(
                            EncodeErrorKind::InvalidValue,
                            described("Invalid unused bits in bit string: "@, first_word(s), "a count from 0 to 255"@),
                        ),
                    ),
                }
            },
            None => Err(fail(EncodeErrorKind::InvalidValue, described("Invalid bit string format: "@, s, "<bits> (unused bits: N) or N unused bits, data: <hex>"@))),
        },
    }
}

/// Packs the `0`/`1` characters of `v` into octets.
fn pack_bit_chars(v: &Vec<char>) -> (r: Vec<u8>)
    ensures
        r@ == pack_bits(0, 0, v@),
{
    let mut out: Vec<u8> = Vec::new();
    let mut cur: u8 = 0;
    let mut n: u8 = 0;
    let mut i: usize = 0;
    assert(v@.subrange(0, v@.len() as int) =~= v@);
    assert(out@ + pack_bits(0, 0, v@) =~= pack_bits(0, 0, v@));
    assert(two_pow(0) == 1);
    while i < v.len()
        invariant
            i <= v.len(),
            n < 8,
            (cur as nat) < two_pow(n as nat),
            pack_bits(0, 0, v@) == out@ + pack_bits(
                cur as nat,
                n as nat,
                v@.subrange(i as int, v@.len() as int),
            ),
        decreases v.len() - i,
    {
        let ghost rest = v@.subrange(i as int, v@.len() as int);
        assert(rest.drop_first() =~= v@.subrange(i + 1, v@.len() as int));
        let ch = v[i];
        if ch == '0' || ch == '1' {
            let bit: u8 = if ch == '1' {
                1
            } else {
                0
            };
            proof {
                lemma_two_pow_le_128(n as nat);
            }
            cur = cur * 2 + bit;
            if n == 7 {
                let ghost prev = out@;
                out.push(cur);
                assert(prev + (seq![cur] + pack_bits(0, 0, rest.drop_first())) =~= out@
                    + pack_bits(0, 0, rest.drop_first()));
                cur = 0;
                n = 0;
            } else {
                n = n + 1;
            }
        }
        i = i + 1;
    }
    if n > 0 {
        let mut c: u8 = cur;
        let mut j: u8 = n;
        assert(two_pow(0) == 1);
        assert((j - n) as nat == 0nat);
        assert(two_pow((j - n) as nat) == 1);
        assert(cur as nat * 1 == cur as nat);
        while j < 8
            invariant
                n <= j <= 8,
                c as nat == cur as nat * two_pow((j - n) as nat),
                (c as nat) < two_pow(j as nat),
            decreases 8 - j,
        {
            proof {
                lemma_two_pow_le_128(j as nat);
                lemma_two_pow_mul(cur as nat, (j - n) as nat);
            }
            c = c * 2;
            j = j + 1;
        }
        out.push(c);
    }
    assert(out@ =~= pack_bits(0, 0, v@));
    out
}

proof fn lemma_two_pow_le_128(n: nat)
    requires
        n < 8,
    ensures
        two_pow(n) <= 128,
{
    assert(two_pow(0) == 1);
    assert(two_pow(1) == 2);
    assert(two_pow(2) == 4);
    assert(two_pow(3) == 8);
    assert(two_pow(4) == 16);
    assert(two_pow(5) == 32);
    assert(two_pow(6) == 64);
    assert(two_pow(7) == 128);
}

proof fn lemma_two_pow_mul(c: nat, k: nat)
    ensures
        c * two_pow(k) * 2 == c * two_pow(k + 1),
{
    assert(two_pow(k + 1) == 2 * two_pow(k));
    assert(c * two_pow(k) * 2 == c * (2 * two_pow(k))) by (nonlinear_arith);
}

/// `v` without its trailing `)` characters.
fn strip_close_chars(v: &Vec<char>) -> (r: Vec<char>)
    ensures
        r@ == strip_close(v@),
{
    let mut j: usize = v.len();
    assert(v@.take(v.len() as int) =~= v@);
    while j > 0 && v[j - 1] == ')'
        invariant
            j <= v.len(),
            strip_close(v@) == strip_close(v@.take(j as int)),
        decreases j,
    {
        assert(v@.take(j as int).drop_last() =~= v@.take(j - 1));
        j = j - 1;
    }
    assert(v@.take(v.len() as int) =~= v@);
    sub_chars(v, 0, j)
}

/// The first whitespace-separated word of `v`, or `0`.
fn first_word_chars(v: &Vec<char>) -> (r: Vec<char>)
    ensures
        r@ == first_word(v@),
{
    let mut a: usize = 0;
    while a < v.len() && is_ws_exec(v[a])
        invariant
            a <= v.len(),
            skip_ws(v@, a as int) == skip_ws(v@, 0),
        decreases v.len() - a,
    {
        a = a + 1;
    }
    if a >= v.len() {
        return vec!['0'];
    }
    let mut b: usize = a;
    while b < v.len() && !is_ws_exec(v[b])
        invariant
            a <= b <= v.len(),
            word_end(v@, b as int) == word_end(v@, a as int),
        decreases v.len() - b,
    {
        b = b + 1;
    }
    sub_chars(v, a, b)
}

/// Parses BIT STRING text back into content octets.
pub fn encode_bit_string(value: &str) -> (r: Result<Vec<u8>, EncodeError>)
    ensures
        agrees(r, bit_string_octets(value@)),
{
    let v = chars_of(value);
    let marker = vec!['(', 'u', 'n', 'u', 's', 'e', 'd', ' ', 'b', 'i', 't', 's', ':'];
    assert(marker@ =~= unused_marker());
    match rfind_chars(&v, &marker) {
        Some(p) => {
            let head = sub_chars(&v, 0, p);
            let bits = trim_chars(&head);
            let tail = sub_chars(&v, p + 13, v.len());
            let count = trim_chars(&strip_close_chars(&tail));
            match parse_unsigned_at_most(&count, 255) {
                Some(u) => {
                    let mut out: Vec<u8> = vec![u as u8];
                    let mut packed = pack_bit_chars(&bits);
                    out.append(&mut packed);
                    assert(out@ =~= seq![u as u8] + pack_bits(0, 0, bits@));
                    Ok(out)
                },
                None => Err(
                    EncodeError::InvalidValue(describe("Invalid unused bits in bit string: ", &count, "a count from 0 to 255")),
                ),
            }
        },
        None => {
            let dm = vec!['d', 'a', 't', 'a', ':'];
            assert(dm@ =~= data_marker());
            match find_chars(&v, &dm) {
                Some(p) => {
                    let tail = sub_chars(&v, p + 5, v.len());
                    let hex = trim_chars(&tail);
                    let word = first_word_chars(&v);
                    match parse_unsigned_at_most(&word, 255) {
                        Some(u) => match hex_chars_to_bytes(&hex) {
                            Ok(mut h) => {
                                let ghost hv = h@;
                                let mut out: Vec<u8> = vec![u as u8];
                                out.append(&mut h);
                                assert(out@ =~= seq![u as u8] + hv);
                                Ok(out)
                            },
                            Err(e) => Err(e),
                        },
                        None => Err(
                            EncodeError::InvalidValue(
                                describe("Invalid unused bits in bit string: ", &word, "a count from 0 to 255"),
                            ),
                        ),
                    }
                },
                None => Err(EncodeError::InvalidValue(describe("Invalid bit string format: ", &v, "<bits> (unused bits: N) or N unused bits, data: <hex>"))),
            }
        },
    }
}

// ------------------------------------------------------------ the law

proof fn lemma_bit_step(b: u8, k: u8)
    requires
        k < 8,
    ensures
        (b >> (k + 1) as u8) < 128,
        ((b >> (k + 1) as u8) as nat) * 2 + (if b & (1u8 << k) != 0 {
            1nat
        } else {
            0nat
        }) == (b >> k) as nat,
{
    let x = b >> (k + 1) as u8;
    let y = b >> k;
    assert(x < 128u8 && (b & (1u8 << k) != 0u8 ==> y == ((x << 1u8) | 1u8)) && (b & (1u8 << k)
        == 0u8 ==> y == (x << 1u8))) by (bit_vector)
        requires
            k < 8u8,
            x == b >> (k + 1) as u8,
            y == b >> k,
    ;
    assert(x < 128u8 ==> ((x << 1u8) | 1u8) as int == 2 * (x as int) + 1 && (x << 1u8) as int == 2
        * (x as int)) by (bit_vector);
}

proof fn lemma_pad(b: u8, u: nat)
    requires
        u <= 7,
        b as nat % two_pow(u) == 0,
    ensures
        ((b >> u as u8) as nat) * two_pow(u) == b as nat,
{
    assert(two_pow(0) == 1);
    assert(two_pow(1) == 2);
    assert(two_pow(2) == 4);
    assert(two_pow(3) == 8);
    assert(two_pow(4) == 16);
    assert(two_pow(5) == 32);
    assert(two_pow(6) == 64);
    assert(two_pow(7) == 128);
    if u == 0 {
        assert((b >> 0u8) == b) by (bit_vector);
    } else if u == 1 {
        assert(b % 2 == 0 ==> ((b >> 1u8) as int) * 2 == b as int) by (bit_vector);
    } else if u == 2 {
        assert(b % 4 == 0 ==> ((b >> 2u8) as int) * 4 == b as int) by (bit_vector);
    } else if u == 3 {
        assert(b % 8 == 0 ==> ((b >> 3u8) as int) * 8 == b as int) by (bit_vector);
    } else if u == 4 {
        assert(b % 16 == 0 ==> ((b >> 4u8) as int) * 16 == b as int) by (bit_vector);
    } else if u == 5 {
        assert(b % 32 == 0 ==> ((b >> 5u8) as int) * 32 == b as int) by (bit_vector);
    } else if u == 6 {
        assert(b % 64 == 0 ==> ((b >> 6u8) as int) * 64 == b as int) by (bit_vector);
    } else {
        assert(b % 128 == 0 ==> ((b >> 7u8) as int) * 128 == b as int) by (bit_vector);
    }
}

/// The bits of `b` from position `7 - j` down to position `low`.
pub open spec fn bits_left(b: u8, low: nat, j: nat) -> Seq<char> {
    Seq::new((8 - low - j) as nat, |i: int| bit_char(b, (7 - j - i) as u8))
}

/// Packing the bits of one octet, from any point inside it, completes that octet.
proof fn lemma_pack_byte(b: u8, low: nat, j: nat, y: Seq<char>)
    requires
        low <= 7,
        j <= 8 - low,
        low == 0 ==> j < 8,
        low > 0 ==> y.len() == 0,
        b as nat % two_pow(low) == 0,
    ensures
        pack_bits((b >> (8 - j) as u8) as nat, j, bits_left(b, low, j) + y) == if low == 0 {
            seq![b] + pack_bits(0, 0, y)
        } else {
            seq![b]
        },
    decreases 8 - low - j,
{
    let r = bits_left(b, low, j);
    let s = r + y;
    if j == 8 - low {
        assert(s =~= Seq::<char>::empty());
        lemma_pad(b, low);
    } else {
        let k = (7 - j) as u8;
        lemma_bit_step(b, k);
        assert(s[0] == bit_char(b, k));
        if j + 1 == 8 {
            assert(s.drop_first() =~= y);
            assert((b >> 0u8) == b) by (bit_vector);
        } else {
            assert(s.drop_first() =~= bits_left(b, low, j + 1) + y);
            lemma_pack_byte(b, low, j + 1, y);
        }
    }
}

proof fn lemma_full_bits_front(c: Seq<u8>)
    requires
        c.len() > 0,
    ensures
        full_bits(c) == byte_bits(c[0], 0) + full_bits(c.drop_first()),
    decreases c.len(),
{
    if c.len() > 1 {
        lemma_full_bits_front(c.drop_last());
        assert(c.drop_last().drop_first() =~= c.drop_first().drop_last());
    } else {
        assert(c.drop_first() =~= Seq::<u8>::empty());
        assert(c.drop_last() =~= Seq::<u8>::empty());
    }
}

/// Packing whole octets' bits gives back the octets.
proof fn lemma_pack_full(c: Seq<u8>, z: Seq<char>)
    ensures
        pack_bits(0, 0, full_bits(c) + z) == c + pack_bits(0, 0, z),
    decreases c.len(),
{
    if c.len() == 0 {
        assert(full_bits(c) + z =~= z);
        assert(c + pack_bits(0, 0, z) =~= pack_bits(0, 0, z));
    } else {
        lemma_full_bits_front(c);
        lemma_pack_full(c.drop_first(), z);
        assert(byte_bits(c[0], 0) =~= bits_left(c[0], 0, 0));
        let b0 = c[0];
        assert((b0 >> 8u8) == 0) by (bit_vector);
        assert(two_pow(0) == 1);
        lemma_pack_byte(c[0], 0, 0, full_bits(c.drop_first()) + z);
        assert(full_bits(c) + z =~= bits_left(c[0], 0, 0) + (full_bits(c.drop_first()) + z));
        assert(seq![c[0]] + (c.drop_first() + pack_bits(0, 0, z)) =~= c + pack_bits(0, 0, z));
    }
}

proof fn lemma_rfind_at(s: Seq<char>, pat: Seq<char>, p: int, i: int)
    requires
        pat.len() > 0,
        0 <= p <= i,
        occurs_at(s, pat, p),
        forall|j: int| p < j <= i && 0 <= j < s.len() ==> #[trigger] s[j] != pat[0],
    ensures
        rfind_from(s, pat, i) == Some(p),
    decreases i - p,
{
    if i > p {
        assert(!occurs_at(s, pat, i)) by {
            if occurs_at(s, pat, i) {
                assert(s.subrange(i, i + pat.len())[0] == s[i]);
            }
        }
        lemma_rfind_at(s, pat, p, i - 1);
    }
}

/// BIT STRING contents whose unused-bit count is at most 7, and whose
/// unused bits are zero, read back as the same octets (a content of the
/// count alone does so for any count).
pub proof fn lemma_bit_string_round_trip(c: Seq<u8>)
    requires
        c.len() >= 1,
        c.len() >= 2 ==> c[0] <= 7 && c.last() as nat % two_pow(c[0] as nat) == 0,
    ensures
        bit_string_octets(bit_string_text(c)) == Ok::<Seq<u8>, Failure>(c),
{
    reveal_strlit(" (unused bits: ");
    reveal_strlit("(unused bits: ");
    reveal_strlit(")");
    let u = c[0];
    let d = nat_str(u as nat);
    lemma_nat_str(u as nat);
    let bits = if c.len() == 1 {
        Seq::<char>::empty()
    } else {
        full_bits(c.drop_first().drop_last()) + byte_bits(c.last(), min8(u))
    };
    let lead = if c.len() == 1 {
        Seq::<char>::empty()
    } else {
        bits + seq![' ']
    };
    let s = bit_string_text(c);
    let p = lead.len() as int;
    assert(s =~= lead + unused_marker() + seq![' '] + d + seq![')']) by {
        if c.len() == 1 {
            assert(unused_suffix(u, false) =~= unused_marker() + seq![' '] + d + seq![')']);
        } else {
            assert(c.drop_first().last() == c.last());
            assert(unused_suffix(u, true) =~= seq![' '] + unused_marker() + seq![' '] + d + seq![')']);
        }
    }
    // the marker found is the one before the count
    assert(occurs_at(s, unused_marker(), p)) by {
        assert(s.subrange(p, p + 13) =~= unused_marker());
    }
    assert forall|j: int| p < j <= s.len() - 13 && 0 <= j < s.len() implies #[trigger] s[j]
        != unused_marker()[0] by {
        if j < p + 13 {
            assert(s[j] == unused_marker()[j - p]);
        } else if j == p + 13 {
        } else {
            assert(s[j] == d[j - p - 14]);
        }
    }
    lemma_rfind_at(s, unused_marker(), p, s.len() - 13);
    // the bits before it
    assert(s.subrange(0, p) =~= lead);
    if c.len() >= 2 {
        assert(bits.len() > 0 && (bits[0] == '0' || bits[0] == '1')) by {
            let mid = c.drop_first().drop_last();
            if mid.len() > 0 {
                lemma_full_bits_front(mid);
                assert(bits[0] == byte_bits(mid[0], 0)[0]);
            } else {
                assert(full_bits(mid) =~= Seq::<char>::empty());
                assert(bits[0] == byte_bits(c.last(), min8(u))[0]);
            }
        }
        assert(bits.last() == '0' || bits.last() == '1');
        assert(trim_start(lead) =~= lead);
        assert(lead[lead.len() - 1] == ' ');
        assert(lead[lead.len() - 2] == bits.last());
        assert(!is_ws(bits.last()));
        assert(skip_ws_back(lead, lead.len() - 1) == lead.len() - 1);
        assert(skip_ws_back(lead, lead.len() as int) == bits.len());
        assert(trim(lead) =~= bits);
    } else {
        assert(trim(lead) =~= lead);
    }
    // the count after it
    let tail = s.subrange(p + 13, s.len() as int);
    assert(tail =~= seq![' '] + d + seq![')']);
    assert(tail.drop_last() =~= seq![' '] + d);
    assert(strip_close(seq![' '] + d) == seq![' '] + d);
    let sd = seq![' '] + d;
    assert(sd[1] == d[0]);
    assert(!is_ws(d[0]));
    assert(skip_ws(sd, 1) == 1);
    assert(skip_ws(sd, 0) == 1);
    assert(trim_start(sd) =~= d);
    assert(trim_end(d) =~= d);
    // the packed bits
    if c.len() >= 2 {
        let mid = c.drop_first().drop_last();
        assert(byte_bits(c.last(), min8(u)) =~= bits_left(c.last(), u as nat, 0));
        let bl = c.last();
        assert((bl >> 8u8) == 0) by (bit_vector);
        lemma_pack_byte(c.last(), u as nat, 0, Seq::empty());
        assert(bits_left(c.last(), u as nat, 0) + Seq::<char>::empty() =~= bits_left(c.last(), u as nat, 0));
        lemma_pack_full(mid, bits_left(c.last(), u as nat, 0));
        assert(seq![u] + (mid + seq![c.last()]) =~= c);
    } else {
        assert(seq![u] + Seq::<u8>::empty() =~= c);
    }
}

} // verus!
