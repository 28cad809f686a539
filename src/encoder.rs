//! The encoder engine and the value parsers it dispatches to: turns a node
//! tree, possibly edited by hand, back into canonical DER bytes.
use vstd::prelude::*;
use vstd::utf8::encode_utf8;
use crate::bitstring::{bit_string_octets, encode_bit_string};
use crate::error::{agrees, describe, described, fail, failure_of, EncodeError, EncodeErrorKind, Failure};
use crate::hex::{hex_bytes, hex_chars_to_bytes, hex_result};
use crate::integer::{encode_integer, integer_octets};
use crate::length::{encode_length, length_octets};
use crate::node::{node_model, models, Asn1Node, NodeModel};
use crate::oid::{encode_object_identifier, oid_octets};
use crate::hex::all_ascii;
use crate::text::{
    chars_of, find, find_chars, nat_str, push_chars, push_decimal, sub_chars, trim, trim_chars,
};

verus! {

/// `c` with an ASCII lowercase letter turned uppercase.
pub open spec fn upper_char(c: char) -> char {
    if 97 <= (c as u32) <= 122 {
        (((c as u32) - 32) as u8) as char
    } else {
        c
    }
}

/// `c` with an ASCII uppercase letter turned lowercase.
pub open spec fn lower_char(c: char) -> char {
    if 65 <= (c as u32) <= 90 {
        (((c as u32) + 32) as u8) as char
    } else {
        c
    }
}

pub open spec fn ascii_upper(s: Seq<char>) -> Seq<char> {
    s.map_values(|c: char| upper_char(c))
}

pub open spec fn ascii_lower(s: Seq<char>) -> Seq<char> {
    s.map_values(|c: char| lower_char(c))
}

/// What `str::to_uppercase` returns for a text.
pub uninterp spec fn upper_of(s: Seq<char>) -> Seq<char>;

/// What `str::to_lowercase` returns for a text.
pub uninterp spec fn lower_of(s: Seq<char>) -> Seq<char>;

/// Relies on `str::to_uppercase`: the Unicode uppercase of a text, which
/// depends on the text alone and, on ASCII text, maps `a`-`z` to `A`-`Z` and
/// keeps every other character.
#[verifier::external_body]
fn to_upper(s: &str) -> (r: String)
    ensures
        r@ == upper_of(s@),
        all_ascii(s@) ==> r@ == ascii_upper(s@),
{
    s.to_uppercase()
}

/// Relies on `str::to_lowercase`: the Unicode lowercase of a text, which
/// depends on the text alone and, on ASCII text, maps `A`-`Z` to `a`-`z` and
/// keeps every other character.
#[verifier::external_body]
fn to_lower(s: &str) -> (r: String)
    ensures
        r@ == lower_of(s@),
        all_ascii(s@) ==> r@ == ascii_lower(s@),
{
    s.to_lowercase()
}

/// The Unicode uppercase of a text, spelled out for ASCII text.
pub open spec fn folded_upper(s: Seq<char>) -> Seq<char> {
    if all_ascii(s) {
        ascii_upper(s)
    } else {
        upper_of(s)
    }
}

/// The Unicode lowercase of a text, spelled out for ASCII text.
pub open spec fn folded_lower(s: Seq<char>) -> Seq<char> {
    if all_ascii(s) {
        ascii_lower(s)
    } else {
        lower_of(s)
    }
}

/// Whether `v` holds exactly the characters of `s`.
fn same_chars(v: &Vec<char>, s: &str) -> (r: bool)
    ensures
        r == (v@ == s@),
{
    let w = chars_of(s);
    if v.len() != w.len() {
        return false;
    }
    let mut i: usize = 0;
    while i < v.len()
        invariant
            i <= v.len() == w.len(),
            w@ == s@,
            forall|j: int| 0 <= j < i ==> v@[j] == w@[j],
        decreases v.len() - i,
    {
        if v[i] != w[i] {
            return false;
        }
        i = i + 1;
    }
    assert(v@ =~= w@);
    true
}

/// The class bits for an uppercase class name; the root's `PEM` class
/// counts as universal.
pub open spec fn class_bits(u: Seq<char>) -> Option<u8> {
    if u == "UNIVERSAL"@ {
        Some(0x00)
    } else if u == "APPLICATION"@ {
        Some(0x40)
    } else if u == "CONTEXT"@ {
        Some(0x80)
    } else if u == "PRIVATE"@ {
        Some(0xC0)
    } else if u == "PEM"@ {
        Some(0x00)
    } else {
        None
    }
}

/// The class bits for a class name already in uppercase.
pub fn class_bits_of(upper: &str) -> (r: Option<u8>)
    ensures
        r == class_bits(upper@),
{
    let u = chars_of(upper);
    if same_chars(&u, "UNIVERSAL") {
        Some(0x00)
    } else if same_chars(&u, "APPLICATION") {
        Some(0x40)
    } else if same_chars(&u, "CONTEXT") {
        Some(0x80)
    } else if same_chars(&u, "PRIVATE") {
        Some(0xC0)
    } else if same_chars(&u, "PEM") {
        Some(0x00)
    } else {
        None
    }
}

/// The tag octet for a class name in any case, a tag number of at most 30,
/// and the constructed flag.
pub open spec fn tag_octet(cls: Seq<char>, n: u32, cons: bool) -> Result<u8, Failure> {
    match class_bits(folded_upper(cls)) {
        None => Err(fail(EncodeErrorKind::InvalidTag, described("Unknown tag class: "@, cls, "UNIVERSAL, APPLICATION, CONTEXT, PRIVATE or PEM"@))),
        Some(b) => if n > 30 {
            Err(
                fail(
                    EncodeErrorKind::UnsupportedType,
                    described("Tag numbers above 30 are not supported: "@, nat_str(n as nat), "a tag number from 0 to 30"@),
                ),
            )
        } else {
            Ok(
                (b + (if cons {
                    0x20u8
                } else {
                    0u8
                }) + n) as u8,
            )
        },
    }
}

/// Computes the tag octet of an element.
pub fn encode_tag(tag_class: &str, tag_number: u32, is_constructed: bool) -> (r: Result<
    u8,
    EncodeError,
>)
    ensures
        match tag_octet(tag_class@, tag_number, is_constructed) {
            Ok(b) => r == Ok::<u8, EncodeError>(b),
            Err(f) => r is Err && failure_of(r->Err_0) == f,
        },
{
    let upper = to_upper(tag_class);
    let class: u8 = match class_bits_of(upper.as_str()) {
        Some(c) => c,
        None => {
            let v = chars_of(tag_class);
            return Err(EncodeError::InvalidTag(describe("Unknown tag class: ", &v, "UNIVERSAL, APPLICATION, CONTEXT, PRIVATE or PEM")));
        },
    };
    if tag_number > 30 {
        let mut m = String::from_str("Tag numbers above 30 are not supported: ");
        push_decimal(&mut m, tag_number as u128);
        m.append(" (expected ");
        m.append("a tag number from 0 to 30");
        m.append(")");
        return Err(EncodeError::UnsupportedType(m));
    }
    let cbit: u8 = if is_constructed {
        0x20
    } else {
        0
    };
    Ok(class + cbit + tag_number as u8)
}

/// The content octet for lowercase BOOLEAN text.
pub open spec fn boolean_octet(l: Seq<char>) -> Option<u8> {
    if l == "true"@ || l == "0xff"@ {
        Some(0xFF)
    } else if l == "false"@ || l == "0x00"@ {
        Some(0x00)
    } else {
        None
    }
}

/// The content octet for BOOLEAN text already in lowercase.
pub fn boolean_octet_of(lower: &str) -> (r: Option<u8>)
    ensures
        r == boolean_octet(lower@),
{
    let l = chars_of(lower);
    if same_chars(&l, "true") || same_chars(&l, "0xff") {
        Some(0xFF)
    } else if same_chars(&l, "false") || same_chars(&l, "0x00") {
        Some(0x00)
    } else {
        None
    }
}

/// The content octets that BOOLEAN text stands for, in any case.
pub open spec fn boolean_octets(s: Seq<char>) -> Result<Seq<u8>, Failure> {
    match boolean_octet(folded_lower(s)) {
        Some(b) => Ok(seq![b]),
        None => Err(fail(EncodeErrorKind::InvalidValue, described("Invalid boolean value: "@, s, "true, false, 0xff or 0x00, in any case"@))),
    }
}

/// Parses BOOLEAN text back into its content octet.
pub fn encode_boolean(value: &str) -> (r: Result<Vec<u8>, EncodeError>)
    ensures
        agrees(r, boolean_octets(value@)),
{
    let lower = to_lower(value);
    match boolean_octet_of(lower.as_str()) {
        Some(b) => {
            let r = vec![b];
            assert(r@ =~= seq![b]);
            Ok(r)
        },
        None => {
            let v = chars_of(value);
            Err(EncodeError::InvalidValue(describe("Invalid boolean value: ", &v, "true, false, 0xff or 0x00, in any case")))
        },
    }
}

/// The UTF-8 bytes of the characters of `v`.
fn utf8_of(v: &Vec<char>) -> (r: Vec<u8>)
    ensures
        r@ == encode_utf8(v@),
{
    let mut s = String::new();
    push_chars(&mut s, v);
    assert(s@ =~= v@);
    s.as_str().as_bytes_vec()
}

/// Whether text is enclosed in a pair of double quotes.
pub open spec fn is_quoted(t: Seq<char>) -> bool {
    t.len() >= 2 && t[0] == '"' && t.last() == '"'
}

/// `t` without one pair of enclosing double quotes, if it has them.
pub open spec fn unquote(t: Seq<char>) -> Seq<char> {
    if is_quoted(t) {
        t.subrange(1, t.len() - 1)
    } else {
        t
    }
}

/// `v` without one pair of enclosing double quotes, if it has them.
fn unquote_chars(v: &Vec<char>) -> (r: Vec<char>)
    ensures
        r@ == unquote(v@),
{
    if v.len() >= 2 && v[0] == '"' && v[v.len() - 1] == '"' {
        sub_chars(v, 1, v.len() - 1)
    } else {
        sub_chars(v, 0, v.len())
    }
}

/// The content octets of a character-string or time type: the trimmed
/// text, without one pair of enclosing double quotes, as UTF-8.
pub open spec fn string_octets(s: Seq<char>) -> Result<Seq<u8>, Failure> {
    Ok(encode_utf8(unquote(trim(s))))
}

/// Turns text into the content of a character-string or time type.
pub fn encode_string(value: &str) -> (r: Result<Vec<u8>, EncodeError>)
    ensures
        agrees(r, string_octets(value@)),
{
    let v = chars_of(value);
    let t = trim_chars(&v);
    let u = unquote_chars(&t);
    Ok(utf8_of(&u))
}

/// The content octets of a value of an unknown type given as plain text:
/// the trimmed text as UTF-8, quotes included.
pub open spec fn raw_text_octets(s: Seq<char>) -> Result<Seq<u8>, Failure> {
    Ok(encode_utf8(trim(s)))
}

/// Turns plain text into the content of a value of an unknown type.
pub fn encode_raw_text(value: &str) -> (r: Result<Vec<u8>, EncodeError>)
    ensures
        agrees(r, raw_text_octets(value@)),
{
    let v = chars_of(value);
    let t = trim_chars(&v);
    Ok(utf8_of(&t))
}

/// The content of NULL, whatever its text.
pub fn encode_null(value: &str) -> (r: Result<Vec<u8>, EncodeError>)
    ensures
        agrees(r, Ok(Seq::empty())),
{
    let r: Vec<u8> = Vec::new();
    Ok(r)
}

/// The content octets that OCTET STRING text stands for: quoted text as
/// UTF-8, `[N bytes] <hex>`, bare hexadecimal, or, when that does not read,
/// the text itself as UTF-8.
pub open spec fn octet_string_octets(s: Seq<char>) -> Result<Seq<u8>, Failure> {
    let t = trim(s);
    if is_quoted(t) {
        Ok(encode_utf8(unquote(t)))
    } else if t.len() > 0 && t[0] == '[' && find(t, seq![']']) is Some {
        hex_result(trim(t.subrange(find(t, seq![']'])->Some_0 + 1, t.len() as int)))
    } else {
        match hex_bytes(t) {
            Some(b) => Ok(b),
            None => Ok(encode_utf8(t)),
        }
    }
}

/// Parses OCTET STRING text back into content octets.
pub fn encode_octet_string(value: &str) -> (r: Result<Vec<u8>, EncodeError>)
    ensures
        agrees(r, octet_string_octets(value@)),
{
    let v = chars_of(value);
    let t = trim_chars(&v);
    if t.len() >= 2 && t[0] == '"' && t[t.len() - 1] == '"' {
        let inner = unquote_chars(&t);
        return Ok(utf8_of(&inner));
    }
    if t.len() > 0 && t[0] == '[' {
        let close = vec![']'];
        assert(close@ =~= seq![']']);
        if let Some(i) = find_chars(&t, &close) {
            let rest = sub_chars(&t, i + 1, t.len());
            let hex = trim_chars(&rest);
            return hex_chars_to_bytes(&hex);
        }
    }
    match hex_chars_to_bytes(&t) {
        Ok(b) => Ok(b),
        Err(_) => Ok(utf8_of(&t)),
    }
}

/// The content octets that a value's text stands for, by tag number.
pub open spec fn value_octets(tag: u32, s: Seq<char>) -> Result<Seq<u8>, Failure> {
    if tag == 1 {
        boolean_octets(s)
    } else if tag == 2 {
        integer_octets(s)
    } else if tag == 3 {
        bit_string_octets(s)
    } else if tag == 4 {
        octet_string_octets(s)
    } else if tag == 5 {
        Ok(Seq::empty())
    } else if tag == 6 {
        oid_octets(s)
    } else if tag == 12 || tag == 19 || tag == 22 || tag == 23 || tag == 24 {
        string_octets(s)
    } else if s.len() >= 2 && s[0] == '0' && s[1] == 'x' {
        hex_result(s.subrange(2, s.len() as int))
    } else {
        raw_text_octets(s)
    }
}

/// Parses a primitive value's text according to its tag number.
pub fn encode_value(tag_number: u32, value: &str) -> (r: Result<Vec<u8>, EncodeError>)
    ensures
        agrees(r, value_octets(tag_number, value@)),
{
    match tag_number {
        1 => encode_boolean(value),
        2 => encode_integer(value),
        3 => encode_bit_string(value),
        4 => encode_octet_string(value),
        5 => encode_null(value),
        6 => encode_object_identifier(value),
        12 | 19 | 22 | 23 | 24 => encode_string(value),
        _ => {
            let v = chars_of(value);
            if v.len() >= 2 && v[0] == '0' && v[1] == 'x' {
                let rest = sub_chars(&v, 2, v.len());
                hex_chars_to_bytes(&rest)
            } else {
                encode_raw_text(value)
            }
        },
    }
}

/// The encoding of a node: tag octet, canonical length header, content.
/// The content of a constructed node with children is the concatenation of
/// the children's encodings; otherwise it is parsed from the value text,
/// and is empty when there is none.
pub open spec fn encode_spec(m: NodeModel) -> Result<Seq<u8>, Failure>
    decreases m,
{
    match tag_octet(m.tag_class, m.tag_number, m.is_constructed) {
        Err(k) => Err(k),
        Ok(t) => {
            let content = if m.is_constructed && m.children is Some {
                encode_all(m.children->Some_0)
            } else if m.value is Some {
                value_octets(m.tag_number, m.value->Some_0)
            } else {
                Ok(Seq::empty())
            };
            match content {
                Err(k) => Err(k),
                Ok(c) => Ok(seq![t] + length_octets(c.len()) + c),
            }
        },
    }
}

/// The concatenated encodings of `s`, or the first error among them.
pub open spec fn encode_all(s: Seq<NodeModel>) -> Result<Seq<u8>, Failure>
    decreases s,
{
    if s.len() == 0 {
        Ok(Seq::empty())
    } else {
        match encode_all(s.drop_last()) {
            Err(k) => Err(k),
            Ok(a) => match encode_spec(s.last()) {
                Err(k) => Err(k),
                Ok(b) => Ok(a + b),
            },
        }
    }
}

proof fn lemma_models_index(s: Seq<Asn1Node>, i: int)
    requires
        0 <= i < s.len(),
    ensures
        models(s).len() == s.len(),
        models(s)[i] == node_model(s[i]),
    decreases s.len(),
{
    if i < s.len() - 1 {
        lemma_models_index(s.drop_last(), i);
    } else {
        lemma_models_len(s.drop_last());
    }
}

proof fn lemma_models_len(s: Seq<Asn1Node>)
    ensures
        models(s).len() == s.len(),
    decreases s.len(),
{
    if s.len() > 0 {
        lemma_models_len(s.drop_last());
    }
}

/// Encodes a node tree back into DER bytes.
pub fn encode_asn1_tree(node: &Asn1Node) -> (r: Result<Vec<u8>, EncodeError>)
    ensures
        agrees(r, encode_spec(node_model(*node))),
    decreases node,
{
    let tag = match encode_tag(node.tag_class.as_str(), node.tag_number, node.is_constructed) {
        Ok(t) => t,
        Err(e) => {
            return Err(e);
        },
    };
    let ghost m = node_model(*node);
    let content: Vec<u8> = if node.is_constructed && node.children.is_some() {
        let children = node.children.as_ref().unwrap();
        let ghost ms = models(children@);
        let mut bytes: Vec<u8> = Vec::new();
        let mut i: usize = 0;
        proof {
            lemma_models_len(children@);
            assert(ms.take(0) =~= Seq::<NodeModel>::empty());
        }
        while i < children.len()
            invariant
                node.children == Some(*children),
                node.is_constructed,
                m == node_model(*node),
                tag_octet(node.tag_class@, node.tag_number, node.is_constructed) == Ok::<
                    u8,
                    Failure,
                >(tag),
                i <= children.len(),
                ms == models(children@),
                ms.len() == children.len(),
                encode_all(ms.take(i as int)) == Ok::<Seq<u8>, Failure>(bytes@),
            decreases children.len() - i,
        {
            proof {
                lemma_models_index(children@, i as int);
                assert(ms.take(i + 1).drop_last() =~= ms.take(i as int));
                assert(ms.take(i + 1).last() == ms[i as int]);
                let cv = node.children->0;
                assert(decreases_to!(*node => node.children));
                assert(decreases_to!(node.children => node.children->0));
                assert(decreases_to!(cv => cv@));
                assert(decreases_to!(cv@ => cv@[i as int]));
            }
            match encode_asn1_tree(&children[i]) {
                Ok(mut b) => {
                    let ghost bv = b@;
                    let ghost prev = bytes@;
                    bytes.append(&mut b);
                    assert(bytes@ == prev + bv);
                },
                Err(e) => {
                    proof {
                        lemma_encode_all_err(ms, i as int);
                    }
                    return Err(e);
                },
            }
            i = i + 1;
        }
        assert(ms.take(children.len() as int) =~= ms);
        bytes
    } else if node.value.is_some() {
        match encode_value(node.tag_number, node.value.as_ref().unwrap().as_str()) {
            Ok(b) => b,
            Err(e) => {
                return Err(e);
            },
        }
    } else {
        Vec::new()
    };
    let mut header = match encode_length(content.len()) {
        Ok(h) => h,
        Err(e) => {
            return Err(e);
        },
    };
    let ghost cv = content@;
    let ghost hv = header@;
    let mut out: Vec<u8> = vec![tag];
    out.append(&mut header);
    let mut content = content;
    out.append(&mut content);
    assert(out@ =~= seq![tag] + hv + cv);
    Ok(out)
}

/// An error in one child is the error of the whole sequence.
proof fn lemma_encode_all_err(s: Seq<NodeModel>, i: int)
    requires
        0 <= i < s.len(),
        encode_all(s.take(i + 1)) is Err,
    ensures
        encode_all(s) is Err,
        encode_all(s)->Err_0 == encode_all(s.take(i + 1))->Err_0,
    decreases s.len(),
{
    if i + 1 < s.len() {
        assert(s.drop_last().take(i + 1) =~= s.take(i + 1));
        lemma_encode_all_err(s.drop_last(), i);
    } else {
        assert(s.take(i + 1) =~= s);
    }
}

} // verus!
