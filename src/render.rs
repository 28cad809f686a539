//! Value renderers: the text shown for the content of a primitive element,
//! chosen by tag number.
use vstd::prelude::*;
use vstd::utf8::{decode_utf8, valid_utf8};
use crate::bitstring::{bit_string_text, decode_bit_string};
use crate::integer::{decode_integer, integer_text};
use crate::oid::{decode_oid, decode_relative_oid, oid_text, relative_oid_text};
use crate::text::{chars_of, hex_pair, nat_str, push_char, push_decimal, push_hex_pair};

verus! {

/// Relies on `std::str::from_utf8`: the text when the bytes are valid UTF-8,
/// nothing otherwise.
#[verifier::external_body]
fn utf8_text(b: &[u8]) -> (r: Option<&str>)
    ensures
        valid_utf8(b@) ==> r is Some && r->Some_0@ == decode_utf8(b@),
        !valid_utf8(b@) ==> r is None,
{
    std::str::from_utf8(b).ok()
}

/// `t` between double quotes.
pub open spec fn quoted(t: Seq<char>) -> Seq<char> {
    seq!['"'] + t + seq!['"']
}

fn push_quoted(s: &mut String, t: &str)
    ensures
        final(s)@ == old(s)@ + quoted(t@),
{
    push_char(s, '"');
    s.append(t);
    push_char(s, '"');
    assert(final(s)@ =~= old(s)@ + quoted(t@));
}

/// How the content of BOOLEAN is shown.
pub open spec fn boolean_text(d: Seq<u8>) -> Seq<char> {
    if d.len() == 0 {
        "Invalid BOOLEAN"@
    } else if d[0] == 0 {
        "FALSE"@
    } else {
        "TRUE"@
    }
}

/// Renders the content of a BOOLEAN.
pub fn decode_boolean(data: &[u8]) -> (r: String)
    ensures
        r@ == boolean_text(data@),
{
    if data.len() == 0 {
        return String::from_str("Invalid BOOLEAN");
    }
    if data[0] == 0 {
        String::from_str("FALSE")
    } else {
        String::from_str("TRUE")
    }
}

/// How the content of a character-string or time type is shown: the text
/// in quotes, or a placeholder naming the type and the byte count when the
/// content is not UTF-8.
pub open spec fn text_or_placeholder(d: Seq<u8>, kind: Seq<char>) -> Seq<char> {
    if valid_utf8(d) {
        quoted(decode_utf8(d))
    } else {
        "[Invalid "@ + kind + ": "@ + nat_str(d.len()) + " bytes]"@
    }
}

fn render_text(data: &[u8], kind: &str) -> (r: String)
    ensures
        r@ == text_or_placeholder(data@, kind@),
{
    let mut s = String::new();
    match utf8_text(data) {
        Some(t) => {
            push_quoted(&mut s, t);
        },
        None => {
            s.append("[Invalid ");
            s.append(kind);
            s.append(": ");
            push_decimal(&mut s, data.len() as u128);
            s.append(" bytes]");
        },
    }
    assert(s@ =~= text_or_placeholder(data@, kind@));
    s
}

/// Renders the content of a UTF8String.
pub fn decode_utf8_string(data: &[u8]) -> (r: String)
    ensures
        r@ == text_or_placeholder(data@, "UTF-8"@),
{
    render_text(data, "UTF-8")
}

/// Renders the content of a PrintableString.
pub fn decode_printable_string(data: &[u8]) -> (r: String)
    ensures
        r@ == text_or_placeholder(data@, "PrintableString"@),
{
    render_text(data, "PrintableString")
}

/// Renders the content of an IA5String.
pub fn decode_ia5_string(data: &[u8]) -> (r: String)
    ensures
        r@ == text_or_placeholder(data@, "IA5String"@),
{
    render_text(data, "IA5String")
}

/// Renders the content of a UTCTime.
pub fn decode_utc_time(data: &[u8]) -> (r: String)
    ensures
        r@ == text_or_placeholder(data@, "UTCTime"@),
{
    render_text(data, "UTCTime")
}

/// Renders the content of a GeneralizedTime.
pub fn decode_generalized_time(data: &[u8]) -> (r: String)
    ensures
        r@ == text_or_placeholder(data@, "GeneralizedTime"@),
{
    render_text(data, "GeneralizedTime")
}

/// Unicode general category `Cc`, which `char::is_control` tests.
pub open spec fn is_control(c: char) -> bool {
    (c as u32) <= 0x1F || (0x7F <= (c as u32) <= 0x9F)
}

/// Whether text may be shown as it is: no control characters other than
/// newline, carriage return and tab.
pub open spec fn printable(t: Seq<char>) -> bool {
    forall|i: int|
        0 <= i < t.len() ==> !is_control(#[trigger] t[i]) || t[i] == '\n' || t[i] == '\r' || t[i]
            == '\t'
}

/// Bytes as uppercase hexadecimal pairs separated by single spaces.
pub open spec fn hex_spaced(b: Seq<u8>) -> Seq<char>
    decreases b.len(),
{
    if b.len() == 0 {
        Seq::empty()
    } else if b.len() == 1 {
        hex_pair(b[0])
    } else {
        hex_spaced(b.drop_last()) + seq![' '] + hex_pair(b.last())
    }
}

/// How the content of an OCTET STRING is shown: quoted when it is printable
/// UTF-8 text, otherwise its size and its first sixteen bytes in hexadecimal.
pub open spec fn octet_string_text(d: Seq<u8>) -> Seq<char> {
    if valid_utf8(d) && printable(decode_utf8(d)) {
        quoted(decode_utf8(d))
    } else {
        "["@ + nat_str(d.len()) + " bytes] "@ + hex_spaced(d.take(if d.len() < 16 {
            d.len() as int
        } else {
            16
        }))
    }
}

fn printable_exec(t: &str) -> (r: bool)
    ensures
        r == printable(t@),
{
    let v = chars_of(t);
    let mut i: usize = 0;
    while i < v.len()
        invariant
            i <= v.len(),
            v@ == t@,
            forall|j: int|
                0 <= j < i ==> !is_control(#[trigger] v@[j]) || v@[j] == '\n' || v@[j] == '\r'
                    || v@[j] == '\t',
        decreases v.len() - i,
    {
        let c = v[i];
        let u = c as u32;
        if (u <= 0x1F || (0x7F <= u && u <= 0x9F)) && c != '\n' && c != '\r' && c != '\t' {
            return false;
        }
        i = i + 1;
    }
    true
}

/// Renders the content of an OCTET STRING.
pub fn decode_octet_string(data: &[u8]) -> (r: String)
    ensures
        r@ == octet_string_text(data@),
{
    let mut s = String::new();
    if let Some(t) = utf8_text(data) {
        if printable_exec(t) {
            push_quoted(&mut s, t);
            assert(s@ =~= octet_string_text(data@));
            return s;
        }
    }
    s.append("[");
    push_decimal(&mut s, data.len() as u128);
    s.append(" bytes] ");
    let n: usize = if data.len() < 16 {
        data.len()
    } else {
        16
    };
    let ghost head = s@;
    let mut i: usize = 0;
    while i < n
        invariant
            i <= n <= data.len(),
            s@ == head + hex_spaced(data@.take(i as int)),
        decreases n - i,
    {
        assert(data@.take(i + 1).drop_last() =~= data@.take(i as int));
        if i > 0 {
            push_char(&mut s, ' ');
        }
        push_hex_pair(&mut s, data[i]);
        i = i + 1;
        assert(s@ =~= head + hex_spaced(data@.take(i as int)));
    }
    assert(s@ =~= octet_string_text(data@));
    s
}

/// The text shown for a primitive element's content, by tag number.
pub open spec fn value_text(tag: u8, d: Seq<u8>) -> Seq<char> {
    if tag == 1 {
        boolean_text(d)
    } else if tag == 2 {
        integer_text(d)
    } else if tag == 3 {
        bit_string_text(d)
    } else if tag == 4 {
        octet_string_text(d)
    } else if tag == 5 {
        "NULL"@
    } else if tag == 6 {
        oid_text(d)
    } else if tag == 12 {
        text_or_placeholder(d, "UTF-8"@)
    } else if tag == 13 {
        relative_oid_text(d)
    } else if tag == 19 {
        text_or_placeholder(d, "PrintableString"@)
    } else if tag == 22 {
        text_or_placeholder(d, "IA5String"@)
    } else if tag == 23 {
        text_or_placeholder(d, "UTCTime"@)
    } else if tag == 24 {
        text_or_placeholder(d, "GeneralizedTime"@)
    } else {
        "["@ + nat_str(d.len()) + " bytes]"@
    }
}

/// Renders a primitive element's content according to its tag number.
pub fn decode_value(tag: u8, content: &[u8]) -> (r: String)
    ensures
        r@ == value_text(tag, content@),
{
    match tag {
        1 => decode_boolean(content),
        2 => decode_integer(content),
        3 => decode_bit_string(content),
        4 => decode_octet_string(content),
        5 => String::from_str("NULL"),
        6 => decode_oid(content),
        12 => decode_utf8_string(content),
        13 => decode_relative_oid(content),
        19 => decode_printable_string(content),
        22 => decode_ia5_string(content),
        23 => decode_utc_time(content),
        24 => decode_generalized_time(content),
        _ => {
            let mut s = String::new();
            s.append("[");
            push_decimal(&mut s, content.len() as u128);
            s.append(" bytes]");
            assert(s@ =~= value_text(tag, content@));
            s
        },
    }
}

/// The name of a universal tag number.
pub open spec fn tag_name(tag: u8) -> Seq<char> {
    if tag == 1 { "BOOLEAN"@ }
    else if tag == 2 { "INTEGER"@ }
    else if tag == 3 { "BIT STRING"@ }
    else if tag == 4 { "OCTET STRING"@ }
    else if tag == 5 { "NULL"@ }
    else if tag == 6 { "OBJECT IDENTIFIER"@ }
    else if tag == 7 { "ObjectDescriptor"@ }
    else if tag == 8 { "EXTERNAL"@ }
    else if tag == 9 { "REAL"@ }
    else if tag == 10 { "ENUMERATED"@ }
    else if tag == 11 { "EMBEDDED PDV"@ }
    else if tag == 12 { "UTF8String"@ }
    else if tag == 13 { "RELATIVE-OID"@ }
    else if tag == 16 { "SEQUENCE"@ }
    else if tag == 17 { "SET"@ }
    else if tag == 18 { "NumericString"@ }
    else if tag == 19 { "PrintableString"@ }
    else if tag == 20 { "TeletexString"@ }
    else if tag == 21 { "VideotexString"@ }
    else if tag == 22 { "IA5String"@ }
    else if tag == 23 { "UTCTime"@ }
    else if tag == 24 { "GeneralizedTime"@ }
    else if tag == 25 { "GraphicString"@ }
    else if tag == 26 { "VisibleString"@ }
    else if tag == 27 { "GeneralString"@ }
    else if tag == 28 { "UniversalString"@ }
    else if tag == 29 { "CHARACTER STRING"@ }
    else if tag == 30 { "BMPString"@ }
    else { "Unknown"@ }
}

/// The name of a universal tag number.
pub fn get_universal_tag_name(tag: u8) -> (r: &'static str)
    ensures
        r@ == tag_name(tag),
{
    match tag {
        1 => "BOOLEAN",
        2 => "INTEGER",
        3 => "BIT STRING",
        4 => "OCTET STRING",
        5 => "NULL",
        6 => "OBJECT IDENTIFIER",
        7 => "ObjectDescriptor",
        8 => "EXTERNAL",
        9 => "REAL",
        10 => "ENUMERATED",
        11 => "EMBEDDED PDV",
        12 => "UTF8String",
        13 => "RELATIVE-OID",
        16 => "SEQUENCE",
        17 => "SET",
        18 => "NumericString",
        19 => "PrintableString",
        20 => "TeletexString",
        21 => "VideotexString",
        22 => "IA5String",
        23 => "UTCTime",
        24 => "GeneralizedTime",
        25 => "GraphicString",
        26 => "VisibleString",
        27 => "GeneralString",
        28 => "UniversalString",
        29 => "CHARACTER STRING",
        30 => "BMPString",
        _ => "Unknown",
    }
}

} // verus!
