//! Hexadecimal text: uppercase rendering of bytes, and the lenient reader
//! that the value parsers share.
use vstd::prelude::*;
use crate::error::{agrees, describe, described, fail, EncodeError, EncodeErrorKind, Failure};
use crate::text::{chars_of, hex_char, hex_pair, hex_value, hex_value_of, push_hex_pair};

verus! {

/// Bytes as uppercase hexadecimal pairs, with no separator.
pub open spec fn hex_upper(b: Seq<u8>) -> Seq<char>
    decreases b.len(),
{
    if b.len() == 0 {
        Seq::empty()
    } else {
        hex_upper(b.drop_last()) + hex_pair(b.last())
    }
}

/// Appends the uppercase hexadecimal pairs of `b`.
pub fn push_hex(s: &mut String, b: &[u8])
    ensures
        final(s)@ == old(s)@ + hex_upper(b@),
{
    let mut i: usize = 0;
    while i < b.len()
        invariant
            i <= b.len(),
            s@ == old(s)@ + hex_upper(b@.take(i as int)),
        decreases b.len() - i,
    {
        push_hex_pair(s, b[i]);
        i = i + 1;
        assert(b@.take(i as int).drop_last() =~= b@.take(i - 1));
        assert(s@ =~= old(s)@ + hex_upper(b@.take(i as int)));
    }
    assert(b@.take(b.len() as int) =~= b@);
}

/// Whether a character is dropped before hexadecimal pairs are read.
pub open spec fn is_separator(c: char) -> bool {
    c == ' ' || c == ':'
}

/// `s` without spaces and colons.
pub open spec fn strip_separators(s: Seq<char>) -> Seq<char>
    decreases s.len(),
{
    if s.len() == 0 {
        Seq::empty()
    } else if is_separator(s.last()) {
        strip_separators(s.drop_last())
    } else {
        strip_separators(s.drop_last()).push(s.last())
    }
}

/// The byte that two characters spell in base 16: two hexadecimal digits,
/// or a `+` sign and one digit.
pub open spec fn pair_value(a: char, b: char) -> Option<u8> {
    if a == '+' {
        match hex_value(b) {
            Some(y) => Some(y as u8),
            None => None,
        }
    } else {
        match (hex_value(a), hex_value(b)) {
            (Some(x), Some(y)) => Some((x * 16 + y) as u8),
            _ => None,
        }
    }
}

/// The bytes spelled by the pairs of `t` from index `i` on; a last
/// unpaired character is ignored.
pub open spec fn pairs_from(t: Seq<char>, i: int) -> Option<Seq<u8>>
    decreases t.len() - i,
{
    if i < 0 || i + 2 > t.len() {
        Some(Seq::empty())
    } else {
        match pair_value(t[i], t[i + 1]) {
            Some(b) => match pairs_from(t, i + 2) {
                Some(r) => Some(seq![b] + r),
                None => None,
            },
            None => None,
        }
    }
}

pub open spec fn all_ascii(t: Seq<char>) -> bool {
    forall|i: int| 0 <= i < t.len() ==> (#[trigger] t[i] as u32) < 128
}

/// What hexadecimal text spells: spaces and colons are dropped, the rest
/// must be ASCII and is read two characters at a time.
pub open spec fn hex_bytes(s: Seq<char>) -> Option<Seq<u8>> {
    let t = strip_separators(s);
    if all_ascii(t) {
        pairs_from(t, 0)
    } else {
        None
    }
}

/// [`hex_bytes`] as an encoding result.
pub open spec fn hex_result(s: Seq<char>) -> Result<Seq<u8>, Failure> {
    match hex_bytes(s) {
        Some(b) => Ok(b),
        None => Err(fail(EncodeErrorKind::InvalidValue, described("Invalid hex string: "@, strip_separators(s), "pairs of hexadecimal digits"@))),
    }
}

fn pair_value_of(a: char, b: char) -> (r: Option<u8>)
    ensures
        r == pair_value(a, b),
{
    if a == '+' {
        hex_value_of(b)
    } else {
        match (hex_value_of(a), hex_value_of(b)) {
            (Some(x), Some(y)) => Some(x * 16 + y),
            _ => None,
        }
    }
}

/// Reads hexadecimal text held as characters.
pub fn hex_chars_to_bytes(v: &Vec<char>) -> (r: Result<Vec<u8>, EncodeError>)
    ensures
        agrees(r, hex_result(v@)),
{
    let mut t: Vec<char> = Vec::new();
    let mut ascii = true;
    let mut i: usize = 0;
    while i < v.len()
        invariant
            i <= v.len(),
            t@ == strip_separators(v@.take(i as int)),
            ascii == all_ascii(t@),
        decreases v.len() - i,
    {
        let c = v[i];
        assert(v@.take(i + 1).drop_last() =~= v@.take(i as int));
        if c != ' ' && c != ':' {
            let ghost prev = t@;
            t.push(c);
            let cu = c as u32;
            ascii = ascii && cu < 128;
            proof {
                assert(t@ == prev.push(c));
                if ascii {
                    assert forall|j: int| 0 <= j < t@.len() implies (#[trigger] t@[j] as u32)
                        < 128 by {
                        if j < prev.len() {
                            assert(t@[j] == prev[j]);
                        }
                    }
                } else if all_ascii(prev) {
                    assert(t@[prev.len() as int] == c);
                } else {
                    let j = choose|j: int|
                        0 <= j < prev.len() && !((#[trigger] prev[j] as u32) < 128);
                    assert(t@[j] == prev[j]);
                }
            }
        }
        i = i + 1;
    }
    assert(v@.take(v.len() as int) =~= v@);
    if !ascii {
        return Err(EncodeError::InvalidValue(describe("Invalid hex string: ", &t, "pairs of hexadecimal digits")));
    }
    let mut out: Vec<u8> = Vec::new();
    let mut k: usize = 0;
    while t.len() - k >= 2
        invariant
            k <= t.len(),
            t@ == strip_separators(v@),
            all_ascii(t@),
            pairs_from(t@, 0) == match pairs_from(t@, k as int) {
                Some(r) => Some(out@ + r),
                None => None::<Seq<u8>>,
            },
        decreases t.len() - k,
    {
        match pair_value_of(t[k], t[k + 1]) {
            Some(b) => {
                let ghost prev = out@;
                out.push(b);
                k = k + 2;
                proof {
                    match pairs_from(t@, k as int) {
                        Some(r) => {
                            assert(prev + (seq![b] + r) =~= out@ + r);
                        },
                        None => {},
                    }
                }
            },
            None => {
                assert(pairs_from(t@, k as int) is None);
                return Err(EncodeError::InvalidValue(describe("Invalid hex string: ", &t, "pairs of hexadecimal digits")));
            },
        }
    }
    assert(out@ + Seq::<u8>::empty() =~= out@);
    Ok(out)
}

/// Reads hexadecimal text: spaces and colons are ignored, and the rest is
/// read two characters at a time, a last unpaired character being dropped.
pub fn hex_to_bytes(hex: &str) -> (r: Result<Vec<u8>, EncodeError>)
    ensures
        agrees(r, hex_result(hex@)),
{
    let v = chars_of(hex);
    hex_chars_to_bytes(&v)
}

proof fn lemma_hex_char(d: nat)
    requires
        d < 16,
    ensures
        hex_value(hex_char(d)) == Some(d),
        hex_char(d) != '+' && hex_char(d) != ' ' && hex_char(d) != ':',
        (hex_char(d) as u32) < 128,
{
}

proof fn lemma_hex_upper_front(b: Seq<u8>)
    requires
        b.len() > 0,
    ensures
        hex_upper(b) == hex_pair(b[0]) + hex_upper(b.drop_first()),
    decreases b.len(),
{
    if b.len() > 1 {
        lemma_hex_upper_front(b.drop_last());
        assert(b.drop_last().drop_first() =~= b.drop_first().drop_last());
    } else {
        assert(b.drop_first() =~= Seq::<u8>::empty());
        assert(b.drop_last() =~= Seq::<u8>::empty());
    }
}

proof fn lemma_hex_upper_chars(b: Seq<u8>)
    ensures
        strip_separators(hex_upper(b)) == hex_upper(b),
        all_ascii(hex_upper(b)),
    decreases b.len(),
{
    if b.len() > 0 {
        lemma_hex_upper_chars(b.drop_last());
        let x = b.last();
        lemma_hex_char(x as nat / 16);
        lemma_hex_char(x as nat % 16);
        let h = hex_upper(b.drop_last());
        let t = hex_upper(b);
        assert(t == h + hex_pair(x));
        assert(t.drop_last() =~= h.push(hex_char(x as nat / 16)));
        assert(t.drop_last().drop_last() =~= h);
        assert(strip_separators(t.drop_last()) == h.push(hex_char(x as nat / 16)));
        assert(strip_separators(t) =~= t);
        assert forall|i: int| 0 <= i < t.len() implies (#[trigger] t[i] as u32) < 128 by {
            if i < h.len() {
                assert(t[i] == h[i]);
            }
        }
    }
}

proof fn lemma_pairs_shift(a: Seq<char>, y: Seq<char>, i: int)
    requires
        0 <= i,
    ensures
        pairs_from(a + y, a.len() + i) == pairs_from(y, i),
    decreases y.len() - i,
{
    if i + 2 <= y.len() {
        assert((a + y)[a.len() + i] == y[i]);
        assert((a + y)[a.len() + i + 1] == y[i + 1]);
        lemma_pairs_shift(a, y, i + 2);
    }
}

/// Uppercase hexadecimal pairs read back as the same bytes.
pub proof fn lemma_hex_upper_reads_back(b: Seq<u8>)
    ensures
        hex_bytes(hex_upper(b)) == Some(b),
{
    lemma_hex_upper_chars(b);
    lemma_hex_pairs(b);
}

proof fn lemma_hex_pairs(b: Seq<u8>)
    ensures
        pairs_from(hex_upper(b), 0) == Some(b),
    decreases b.len(),
{
    if b.len() == 0 {
    } else {
        lemma_hex_upper_front(b);
        lemma_hex_pairs(b.drop_first());
        let x = b[0];
        lemma_hex_char(x as nat / 16);
        lemma_hex_char(x as nat % 16);
        let p = hex_pair(x);
        let rest = hex_upper(b.drop_first());
        lemma_pairs_shift(p, rest, 0);
        assert((p + rest)[0] == p[0] && (p + rest)[1] == p[1]);
        assert(pair_value(p[0], p[1]) == Some(x));
        assert(seq![x] + b.drop_first() =~= b);
    }
}

} // verus!
