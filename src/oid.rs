//! OBJECT IDENTIFIER and RELATIVE-OID values: base-128 arcs on the wire,
//! dot-separated decimal arcs in text.
use vstd::prelude::*;
use crate::error::{agrees, describe, described, fail, EncodeError, EncodeErrorKind, Failure};
use crate::text::{
    all_digits, chars_of, find, find_chars, find_from, is_digit, is_ws, lemma_nat_str, nat_str,
    occurs_at, parse_unsigned_at_most, parse_unsigned_max, push_char, push_decimal, sub_chars, trim, trim_chars, trim_end, trim_start,
};

verus! {

/// One base-128 step: the accumulated arc shifted by seven bits, with the
/// low seven bits of `b` added.
pub open spec fn arc_step(acc: u64, b: u8) -> u64 {
    (acc << 7u64) | ((b & 0x7F) as u64)
}

/// The text of the arcs in `d`, each preceded by a dot. `acc` is the arc in
/// progress, and `open` tells whether one is; an arc ends at an octet whose
/// high bit is clear, or at the end of the data.
pub open spec fn arcs_text(d: Seq<u8>, acc: u64, open: bool) -> Seq<char>
    decreases d.len(),
{
    if d.len() == 0 {
        if open {
            seq!['.'] + nat_str(acc as nat)
        } else {
            Seq::empty()
        }
    } else {
        let v = arc_step(acc, d[0]);
        if d[0] & 0x80 == 0 {
            seq!['.'] + nat_str(v as nat) + arcs_text(d.drop_first(), 0, false)
        } else {
            arcs_text(d.drop_first(), v, true)
        }
    }
}

/// How an OBJECT IDENTIFIER's content is shown: the first octet splits
/// into two arcs (`b / 40` and `b % 40`), the rest are base-128 arcs.
pub open spec fn oid_text(d: Seq<u8>) -> Seq<char> {
    if d.len() == 0 {
        Seq::empty()
    } else {
        nat_str(d[0] as nat / 40) + seq!['.'] + nat_str(d[0] as nat % 40) + arcs_text(
            d.drop_first(),
            0,
            false,
        )
    }
}

/// How a RELATIVE-OID's content is shown: base-128 arcs joined by dots.
pub open spec fn relative_oid_text(d: Seq<u8>) -> Seq<char> {
    if d.len() == 0 {
        Seq::empty()
    } else {
        arcs_text(d, 0, false).drop_first()
    }
}

/// Appends the dotted arcs of `d[from..]`.
fn push_arcs(s: &mut String, d: &[u8], from: usize)
    requires
        from <= d.len(),
    ensures
        final(s)@ == old(s)@ + arcs_text(d@.subrange(from as int, d@.len() as int), 0, false),
{
    let ghost all = d@.subrange(from as int, d@.len() as int);
    let mut acc: u64 = 0;
    let mut open = false;
    let mut i: usize = from;
    while i < d.len()
        invariant
            from <= i <= d.len(),
            all == d@.subrange(from as int, d@.len() as int),
            old(s)@ + arcs_text(all, 0, false) == s@ + arcs_text(
                d@.subrange(i as int, d@.len() as int),
                acc,
                open,
            ),
        decreases d.len() - i,
    {
        let ghost rest = d@.subrange(i as int, d@.len() as int);
        let ghost before = s@;
        assert(rest.drop_first() =~= d@.subrange(i + 1, d@.len() as int));
        let b = d[i];
        let v: u64 = (acc << 7u64) | ((b & 0x7F) as u64);
        if b & 0x80 == 0 {
            push_char(s, '.');
            push_decimal(s, v as u128);
            acc = 0;
            open = false;
            assert(before + (seq!['.'] + nat_str(v as nat) + arcs_text(rest.drop_first(), 0, false))
                =~= s@ + arcs_text(rest.drop_first(), 0, false));
        } else {
            acc = v;
            open = true;
        }
        i = i + 1;
    }
    if open {
        push_char(s, '.');
        push_decimal(s, acc as u128);
    }
    assert(s@ =~= old(s)@ + arcs_text(all, 0, false));
}

/// Renders the content of an OBJECT IDENTIFIER.
pub fn decode_oid(data: &[u8]) -> (r: String)
    ensures
        r@ == oid_text(data@),
{
    let mut s = String::new();
    if data.len() == 0 {
        return s;
    }
    let first = data[0];
    push_decimal(&mut s, (first / 40) as u128);
    push_char(&mut s, '.');
    push_decimal(&mut s, (first % 40) as u128);
    push_arcs(&mut s, data, 1);
    assert(data@.subrange(1, data@.len() as int) =~= data@.drop_first());
    assert(s@ =~= oid_text(data@));
    s
}

/// Renders the content of a RELATIVE-OID.
pub fn decode_relative_oid(data: &[u8]) -> (r: String)
    ensures
        r@ == relative_oid_text(data@),
{
    let mut s = String::new();
    if data.len() == 0 {
        return s;
    }
    let mut dotted = String::new();
    push_arcs(&mut dotted, data, 0);
    assert(data@.subrange(0, data@.len() as int) =~= data@);
    let v = chars_of(dotted.as_str());
    proof {
        lemma_arcs_text_starts_with_dot(data@);
    }
    let tail = sub_chars(&v, 1, v.len());
    crate::text::push_chars(&mut s, &tail);
    assert(s@ =~= relative_oid_text(data@));
    s
}

proof fn lemma_arcs_text_starts_with_dot(d: Seq<u8>)
    requires
        d.len() > 0,
    ensures
        arcs_text(d, 0, false).len() > 0,
        arcs_text(d, 0, false)[0] == '.',
{
    lemma_arcs_text_open(d, 0, false);
}

proof fn lemma_arcs_text_open(d: Seq<u8>, acc: u64, open: bool)
    requires
        d.len() > 0 || open,
    ensures
        arcs_text(d, acc, open).len() > 0,
        arcs_text(d, acc, open)[0] == '.',
    decreases d.len(),
{
    if d.len() > 0 {
        let v = arc_step(acc, d[0]);
        if d[0] & 0x80 != 0 {
            lemma_arcs_text_open(d.drop_first(), v, true);
        }
    }
}

// ----------------------------------------------------------- encoding

/// `n` in base 128, most significant group first; every octet but the
/// last has its high bit set (`more` sets it on the last one too).
pub open spec fn base128(n: nat, more: bool) -> Seq<u8>
    decreases n,
{
    let low = (n % 128 + if more {
        128nat
    } else {
        0nat
    }) as u8;
    if n < 128 {
        seq![low]
    } else {
        base128(n / 128, true).push(low)
    }
}

fn push_base128(out: &mut Vec<u8>, n: u32, more: bool)
    ensures
        final(out)@ == old(out)@ + base128(n as nat, more),
    decreases n,
{
    let low: u8 = if more {
        (n % 128 + 128) as u8
    } else {
        (n % 128) as u8
    };
    if n >= 128 {
        push_base128(out, n / 128, true);
    }
    out.push(low);
    assert(final(out)@ =~= old(out)@ + base128(n as nat, more));
}

/// The base-128 octets of one arc.
pub fn encode_oid_component(num: u32) -> (r: Vec<u8>)
    ensures
        r@ == base128(num as nat, false),
{
    let mut out: Vec<u8> = Vec::new();
    push_base128(&mut out, num, false);
    assert(out@ =~= base128(num as nat, false));
    out
}

/// Splits at every `sep`; `cur` is the piece in progress.
pub open spec fn split_acc(s: Seq<char>, sep: char, cur: Seq<char>) -> Seq<Seq<char>>
    decreases s.len(),
{
    if s.len() == 0 {
        seq![cur]
    } else if s[0] == sep {
        seq![cur] + split_acc(s.drop_first(), sep, Seq::empty())
    } else {
        split_acc(s.drop_first(), sep, cur.push(s[0]))
    }
}

/// The pieces of `s` between occurrences of `sep` (one piece when there is none).
pub open spec fn split_on(s: Seq<char>, sep: char) -> Seq<Seq<char>> {
    split_acc(s, sep, Seq::empty())
}

pub open spec fn views_of(parts: Seq<Vec<char>>) -> Seq<Seq<char>> {
    parts.map_values(|p: Vec<char>| p@)
}

/// The pieces of `v` between occurrences of `sep`.
pub fn split_chars(v: &Vec<char>, sep: char) -> (r: Vec<Vec<char>>)
    ensures
        views_of(r@) == split_on(v@, sep),
{
    let mut parts: Vec<Vec<char>> = Vec::new();
    let mut cur: Vec<char> = Vec::new();
    let mut i: usize = 0;
    assert(views_of(parts@) =~= Seq::<Seq<char>>::empty());
    assert(v@.subrange(0, v@.len() as int) =~= v@);
    assert(cur@ =~= Seq::<char>::empty());
    while i < v.len()
        invariant
            i <= v.len(),
            views_of(parts@) + split_acc(v@.subrange(i as int, v@.len() as int), sep, cur@)
                == split_on(v@, sep),
        decreases v.len() - i,
    {
        let ghost rest = v@.subrange(i as int, v@.len() as int);
        assert(rest.drop_first() =~= v@.subrange(i + 1, v@.len() as int));
        let ghost before = views_of(parts@);
        if v[i] == sep {
            let ghost done = cur@;
            parts.push(cur);
            cur = Vec::new();
            assert(views_of(parts@) =~= before.push(done));
            assert(before + (seq![done] + split_acc(rest.drop_first(), sep, Seq::empty())) =~= views_of(
                parts@,
            ) + split_acc(rest.drop_first(), sep, cur@));
        } else {
            cur.push(v[i]);
        }
        i = i + 1;
    }
    let ghost last = cur@;
    let ghost before = views_of(parts@);
    parts.push(cur);
    assert(views_of(parts@) =~= before.push(last));
    assert(before + seq![last] =~= before.push(last));
    parts
}

/// The dotted part of OID text: whatever precedes ` (`, trimmed.
pub open spec fn oid_body(s: Seq<char>) -> Seq<char> {
    match find(s, seq![' ', '(']) {
        Some(p) => trim(s.subrange(0, p)),
        None => trim(s),
    }
}

/// The octets of the arcs after the first two, each a decimal that fits in 32 bits.
pub open spec fn arcs_octets(parts: Seq<Seq<char>>) -> Option<Seq<u8>>
    decreases parts.len(),
{
    if parts.len() == 0 {
        Some(Seq::empty())
    } else {
        match (arcs_octets(parts.drop_last()), parse_unsigned_max(parts.last(), u32::MAX as nat)) {
            (Some(r), Some(n)) => Some(r + base128(n, false)),
            _ => None,
        }
    }
}

/// The content octets that OID text stands for: at least two decimal arcs,
/// the first two combined into one octet (`first * 40 + second`, at most 255).
pub open spec fn oid_octets(s: Seq<char>) -> Result<Seq<u8>, Failure> {
    let parts = split_on(oid_body(s), '.');
    if parts.len() < 2 {
        Err(fail(EncodeErrorKind::InvalidValue, described("OID must have at least 2 components: "@, s, "dot-separated decimal arcs such as 1.2.840"@)))
    } else {
        match (
            parse_unsigned_max(parts[0], u32::MAX as nat),
            parse_unsigned_max(parts[1], u32::MAX as nat),
        ) {
            (Some(a), Some(b)) => if a * 40 + b > 255 {
                Err(
                    fail(
                        EncodeErrorKind::InvalidValue,
                        described("OID first two components exceed one byte: "@, s, "first * 40 + second of at most 255"@),
                    ),
                )
            } else {
                match arcs_octets(parts.subrange(2, parts.len() as int)) {
                    Some(rest) => Ok(seq![(a * 40 + b) as u8] + rest),
                    None => Err(fail(EncodeErrorKind::InvalidValue, described("Invalid OID component in: "@, s, "decimal arcs of at most 32 bits"@))),
                }
            },
            _ => Err(fail(EncodeErrorKind::InvalidValue, described("Invalid OID component in: "@, s, "decimal arcs of at most 32 bits"@))),
        }
    }
}

/// Parses OID text back into content octets.
pub fn encode_object_identifier(value: &str) -> (r: Result<Vec<u8>, EncodeError>)
    ensures
        agrees(r, oid_octets(value@)),
{
    let v = chars_of(value);
    let pat = vec![' ', '('];
    assert(pat@ =~= seq![' ', '(']);
    let body = match find_chars(&v, &pat) {
        Some(p) => {
            let head = sub_chars(&v, 0, p);
            trim_chars(&head)
        },
        None => trim_chars(&v),
    };
    assert(body@ == oid_body(value@));
    let parts = split_chars(&body, '.');
    let ghost ps = views_of(parts@);
    if parts.len() < 2 {
        return Err(EncodeError::InvalidValue(describe("OID must have at least 2 components: ", &v, "dot-separated decimal arcs such as 1.2.840")));
    }
    assert(parts@[0]@ == ps[0] && parts@[1]@ == ps[1]);
    let first = parse_unsigned_at_most(&parts[0], 4294967295);
    let second = parse_unsigned_at_most(&parts[1], 4294967295);
    let (a, b) = match (first, second) {
        (Some(a), Some(b)) => (a, b),
        _ => {
            return Err(EncodeError::InvalidValue(describe("Invalid OID component in: ", &v, "decimal arcs of at most 32 bits")));
        },
    };
    if a > 6 || a * 40 + b > 255 {
        return Err(
            EncodeError::InvalidValue(describe("OID first two components exceed one byte: ", &v, "first * 40 + second of at most 255")),
        );
    }
    let mut bytes: Vec<u8> = vec![(a * 40 + b) as u8];
    assert(ps.subrange(2, 2) =~= Seq::<Seq<char>>::empty());
    let mut k: usize = 2;
    while k < parts.len()
        invariant
            2 <= k <= parts.len(),
            v@ == value@,
            ps == views_of(parts@),
            ps == split_on(oid_body(value@), '.'),
            parse_unsigned_max(ps[0], u32::MAX as nat) == Some(a as nat),
            parse_unsigned_max(ps[1], u32::MAX as nat) == Some(b as nat),
            a * 40 + b <= 255,
            arcs_octets(ps.subrange(2, k as int)) == Some(bytes@.drop_first()),
            bytes@.len() >= 1,
            bytes@[0] == (a * 40 + b) as u8,
        decreases parts.len() - k,
    {
        assert(ps.subrange(2, k + 1).drop_last() =~= ps.subrange(2, k as int));
        assert(parts@[k as int]@ == ps[k as int]);
        match parse_unsigned_at_most(&parts[k], 4294967295) {
            Some(n) => {
                let mut group = encode_oid_component(n as u32);
                let ghost prev = bytes@;
                bytes.append(&mut group);
                assert(bytes@.drop_first() =~= prev.drop_first() + base128(n as nat, false));
            },
            None => {
                proof {
                    assert(ps.subrange(2, k + 1).last() == ps[k as int]);
                    assert(arcs_octets(ps.subrange(2, k + 1)) is None);
                    assert(ps.subrange(2, ps.len() as int).take(k - 1) =~= ps.subrange(2, k + 1));
                    lemma_arcs_octets_none(ps.subrange(2, ps.len() as int), k - 2);
                }
                return Err(EncodeError::InvalidValue(describe("Invalid OID component in: ", &v, "decimal arcs of at most 32 bits")));
            },
        }
        k = k + 1;
    }
    assert(ps.subrange(2, k as int) =~= ps.subrange(2, ps.len() as int));
    assert(bytes@ =~= seq![(a * 40 + b) as u8] + bytes@.drop_first());
    Ok(bytes)
}

/// An arc that cannot be read makes the whole list unreadable.
proof fn lemma_arcs_octets_none(parts: Seq<Seq<char>>, j: int)
    requires
        0 <= j < parts.len(),
        arcs_octets(parts.take(j + 1)) is None,
    ensures
        arcs_octets(parts) is None,
    decreases parts.len(),
{
    if j + 1 < parts.len() {
        assert(parts.drop_last().take(j + 1) =~= parts.take(j + 1));
        lemma_arcs_octets_none(parts.drop_last(), j);
    } else {
        assert(parts.take(j + 1) =~= parts);
    }
}

// ------------------------------------------------------------ the law

/// The octets of a list of arcs, each in base 128.
pub open spec fn arcs_bytes(arcs: Seq<nat>) -> Seq<u8>
    decreases arcs.len(),
{
    if arcs.len() == 0 {
        Seq::empty()
    } else {
        arcs_bytes(arcs.drop_last()) + base128(arcs.last(), false)
    }
}

/// A list of arcs as text, each arc preceded by a dot.
pub open spec fn arcs_dotted(arcs: Seq<nat>) -> Seq<char>
    decreases arcs.len(),
{
    if arcs.len() == 0 {
        Seq::empty()
    } else {
        seq!['.'] + nat_str(arcs[0]) + arcs_dotted(arcs.drop_first())
    }
}

/// The text of an OID with the arcs `first`, `second` and `rest`.
pub open spec fn oid_string(first: nat, second: nat, rest: Seq<nat>) -> Seq<char> {
    nat_str(first) + arcs_dotted(seq![second] + rest)
}

/// The content octets of an OID with the arcs `first`, `second` and `rest`.
pub open spec fn oid_bytes(first: nat, second: nat, rest: Seq<nat>) -> Seq<u8> {
    seq![(first * 40 + second) as u8] + arcs_bytes(rest)
}

proof fn lemma_arc_step(acc: u64, b: u8)
    requires
        acc < 0x200000000000000,
    ensures
        arc_step(acc, b) == acc * 128 + (b % 128) as u64,
        (b & 0x80 == 0) == (b < 128),
{
    assert(((acc << 7u64) | ((b & 0x7F) as u64)) == acc * 128 + (b % 128) as u64) by (bit_vector)
        requires
            acc < 0x200000000000000u64,
    ;
    assert((b & 0x80 == 0) == (b < 128)) by (bit_vector);
}

/// Reading the continuation octets of an arc leaves the arc in progress.
proof fn lemma_read_high(n: nat, rest: Seq<u8>)
    requires
        0 < n < 0x200000000000000,
    ensures
        arcs_text(base128(n, true) + rest, 0, false) == arcs_text(rest, n as u64, true),
    decreases n,
{
    let b = base128(n, true);
    if n < 128 {
        let x = (n + 128) as u8;
        assert(b == seq![x]);
        lemma_arc_step(0, x);
        assert((b + rest).drop_first() =~= rest);
    } else {
        let x = (n % 128 + 128) as u8;
        assert(b == base128(n / 128, true).push(x));
        assert(b + rest =~= base128(n / 128, true) + (seq![x] + rest));
        lemma_read_high(n / 128, seq![x] + rest);
        lemma_arc_step((n / 128) as u64, x);
        assert((seq![x] + rest).drop_first() =~= rest);
    }
}

/// Reading the octets of one arc gives the arc's text.
proof fn lemma_read_arc(n: nat, rest: Seq<u8>)
    requires
        n < 0x200000000000000,
    ensures
        arcs_text(base128(n, false) + rest, 0, false) == seq!['.'] + nat_str(n) + arcs_text(
            rest,
            0,
            false,
        ),
{
    let b = base128(n, false);
    if n < 128 {
        let x = n as u8;
        assert(b == seq![x]);
        lemma_arc_step(0, x);
        assert((b + rest).drop_first() =~= rest);
    } else {
        let x = (n % 128) as u8;
        assert(b == base128(n / 128, true).push(x));
        assert(b + rest =~= base128(n / 128, true) + (seq![x] + rest));
        lemma_read_high(n / 128, seq![x] + rest);
        lemma_arc_step((n / 128) as u64, x);
        assert((seq![x] + rest).drop_first() =~= rest);
    }
}

proof fn lemma_arcs_bytes_front(arcs: Seq<nat>)
    requires
        arcs.len() > 0,
    ensures
        arcs_bytes(arcs) == base128(arcs[0], false) + arcs_bytes(arcs.drop_first()),
    decreases arcs.len(),
{
    if arcs.len() > 1 {
        lemma_arcs_bytes_front(arcs.drop_last());
        assert(arcs.drop_last().drop_first() =~= arcs.drop_first().drop_last());
    } else {
        assert(arcs.drop_first() =~= Seq::<nat>::empty());
        assert(arcs.drop_last() =~= Seq::<nat>::empty());
    }
}

/// The arcs' octets read back as the arcs' text.
proof fn lemma_read_arcs(arcs: Seq<nat>)
    requires
        forall|i: int| 0 <= i < arcs.len() ==> #[trigger] arcs[i] <= u32::MAX,
    ensures
        arcs_text(arcs_bytes(arcs), 0, false) == arcs_dotted(arcs),
    decreases arcs.len(),
{
    if arcs.len() > 0 {
        lemma_arcs_bytes_front(arcs);
        lemma_read_arcs(arcs.drop_first());
        lemma_read_arc(arcs[0], arcs_bytes(arcs.drop_first()));
    }
}

proof fn lemma_split_digits(x: Seq<char>, y: Seq<char>, cur: Seq<char>)
    requires
        all_digits(x),
    ensures
        split_acc(x + y, '.', cur) == split_acc(y, '.', cur + x),
    decreases x.len(),
{
    if x.len() > 0 {
        assert(is_digit(x[0]));
        assert((x + y).drop_first() =~= x.drop_first() + y);
        assert(cur.push(x[0]) + x.drop_first() =~= cur + x);
        lemma_split_digits(x.drop_first(), y, cur.push(x[0]));
    } else {
        assert(x + y =~= y);
        assert(cur + x =~= cur);
    }
}

/// Splitting dotted arcs at the dots gives back each arc's text.
proof fn lemma_split_dotted(arcs: Seq<nat>, cur: Seq<char>)
    ensures
        split_acc(arcs_dotted(arcs), '.', cur) == seq![cur] + arcs.map_values(|a: nat| nat_str(a)),
    decreases arcs.len(),
{
    if arcs.len() == 0 {
        assert(seq![cur] + arcs.map_values(|a: nat| nat_str(a)) =~= seq![cur]);
    } else {
        let t = nat_str(arcs[0]);
        lemma_nat_str(arcs[0]);
        let x = arcs_dotted(arcs.drop_first());
        let whole = seq!['.'] + t + x;
        assert(whole.drop_first() =~= t + x);
        lemma_split_digits(t, x, Seq::empty());
        assert(Seq::<char>::empty() + t =~= t);
        lemma_split_dotted(arcs.drop_first(), t);
        assert(seq![cur] + (seq![t] + arcs.drop_first().map_values(|a: nat| nat_str(a))) =~= seq![cur]
            + arcs.map_values(|a: nat| nat_str(a)));
    }
}

proof fn lemma_arcs_octets(arcs: Seq<nat>)
    requires
        forall|i: int| 0 <= i < arcs.len() ==> #[trigger] arcs[i] <= u32::MAX,
    ensures
        arcs_octets(arcs.map_values(|a: nat| nat_str(a))) == Some(arcs_bytes(arcs)),
    decreases arcs.len(),
{
    if arcs.len() > 0 {
        let ps = arcs.map_values(|a: nat| nat_str(a));
        assert(ps.drop_last() =~= arcs.drop_last().map_values(|a: nat| nat_str(a)));
        lemma_arcs_octets(arcs.drop_last());
        lemma_nat_str(arcs.last());
    }
}

proof fn lemma_no_space(s: Seq<char>, i: int)
    requires
        forall|j: int| 0 <= j < s.len() ==> (#[trigger] s[j]) != ' ',
    ensures
        find_from(s, seq![' ', '('], i) is None,
    decreases s.len() + 1 - i,
{
    if !(i < 0 || i + 2 > s.len()) {
        assert(!occurs_at(s, seq![' ', '('], i)) by {
            if occurs_at(s, seq![' ', '('], i) {
                assert(s.subrange(i, i + 2)[0] == ' ');
            }
        }
        lemma_no_space(s, i + 1);
    }
}

proof fn lemma_dotted_chars(arcs: Seq<nat>)
    ensures
        forall|j: int|
            0 <= j < arcs_dotted(arcs).len() ==> (is_digit(#[trigger] arcs_dotted(arcs)[j])
                || arcs_dotted(arcs)[j] == '.'),
        arcs_dotted(arcs).len() > 0 ==> is_digit(arcs_dotted(arcs).last()),
    decreases arcs.len(),
{
    if arcs.len() > 0 {
        lemma_dotted_chars(arcs.drop_first());
        lemma_nat_str(arcs[0]);
        let t = nat_str(arcs[0]);
        let x = arcs_dotted(arcs.drop_first());
        let w = seq!['.'] + t + x;
        assert forall|j: int| 0 <= j < w.len() implies (is_digit(#[trigger] w[j]) || w[j] == '.') by {
            if j == 0 {
            } else if j < 1 + t.len() {
                assert(w[j] == t[j - 1]);
            } else {
                assert(w[j] == x[j - 1 - t.len()]);
            }
        }
        if x.len() == 0 {
            assert(w.last() == t.last());
        } else {
            assert(w.last() == x.last());
        }
    }
}

/// OID bijection: for a first arc and a second arc below 40 that fit in one
/// octet together, and further arcs that fit in 32 bits, the dotted text
/// encodes to the arcs' octets, which decode back to the same text.
pub proof fn lemma_oid_round_trip(first: nat, second: nat, rest: Seq<nat>)
    requires
        second < 40,
        first * 40 + second <= 255,
        forall|i: int| 0 <= i < rest.len() ==> #[trigger] rest[i] <= u32::MAX,
    ensures
        oid_octets(oid_string(first, second, rest)) == Ok::<Seq<u8>, Failure>(
            oid_bytes(first, second, rest),
        ),
        oid_text(oid_bytes(first, second, rest)) == oid_string(first, second, rest),
{
    let s = oid_string(first, second, rest);
    let tail = seq![second] + rest;
    let b = oid_bytes(first, second, rest);
    // decoding
    lemma_read_arcs(rest);
    assert(b.drop_first() =~= arcs_bytes(rest));
    assert(b[0] as nat / 40 == first && b[0] as nat % 40 == second);
    assert(arcs_dotted(tail).drop_first() =~= nat_str(second) + arcs_dotted(rest)) by {
        assert(tail.drop_first() =~= rest);
    }
    assert(oid_text(b) =~= s) by {
        assert(tail.drop_first() =~= rest);
        assert(arcs_dotted(tail) == seq!['.'] + nat_str(second) + arcs_dotted(rest));
    }
    // encoding: the text is its own body
    lemma_nat_str(first);
    lemma_dotted_chars(tail);
    assert forall|j: int| 0 <= j < s.len() implies (is_digit(#[trigger] s[j]) || s[j] == '.') by {
        if j < nat_str(first).len() {
            assert(s[j] == nat_str(first)[j]);
        } else {
            assert(s[j] == arcs_dotted(tail)[j - nat_str(first).len()]);
        }
    }
    lemma_no_space(s, 0);
    assert(!is_ws(s[0]));
    assert(s.last() == arcs_dotted(tail).last());
    assert(!is_ws(s.last()));
    assert(trim_start(s) =~= s);
    assert(trim_end(s) =~= s);
    assert(oid_body(s) == s);
    // the pieces between the dots
    lemma_split_digits(nat_str(first), arcs_dotted(tail), Seq::empty());
    assert(Seq::<char>::empty() + nat_str(first) =~= nat_str(first));
    lemma_split_dotted(tail, nat_str(first));
    let parts = split_on(s, '.');
    let all = seq![first] + tail;
    assert(parts =~= all.map_values(|a: nat| nat_str(a)));
    lemma_nat_str(second);
    assert(parts[0] == nat_str(first));
    assert(parts[1] == nat_str(second));
    assert(parts.subrange(2, parts.len() as int) =~= rest.map_values(|a: nat| nat_str(a)));
    lemma_arcs_octets(rest);
}

} // verus!
