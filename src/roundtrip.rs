//! How the decoder and the encoder fit together: decoding a buffer in
//! canonical form and encoding the nodes gives back the buffer, node by node.
use vstd::prelude::*;
use crate::decoder::{class_name, decode_spec, decoded_node, elements_from, prepend};
use crate::encoder::{ascii_lower, folded_lower, folded_upper, lower_char};
use crate::encoder::{is_quoted, unquote};
use crate::bitstring::{lemma_bit_string_round_trip, two_pow};
use crate::hex::all_ascii;
use crate::render::{printable, quoted};
use crate::text::{is_ws, trim, trim_end, trim_start};
use vstd::utf8::{decode_utf8, decode_utf8_encode_utf8, encode_utf8, valid_utf8};
use crate::integer::{
    lemma_integer_content_round_trip, lemma_long_integer_round_trip, signed_be, twos_octets,
};
use crate::oid::{lemma_oid_round_trip, oid_bytes};
use crate::encoder::{ascii_upper, class_bits, encode_all, encode_spec, tag_octet, upper_char, value_octets};
use crate::error::Failure;
use crate::length::{length_header, length_octets};
use crate::node::NodeModel;
use crate::render::value_text;

verus! {

/// Whether the element at `pos` in `d` is in the form the encoder produces,
/// so that re-encoding its node gives the same bytes: its tag number is at
/// most 30, its length header is the shortest one, a constructed content
/// holds only such elements and ends exactly after the last of them, and the
/// text of a primitive value reads back as its content.
pub open spec fn element_reencodes(d: Seq<u8>, pos: int) -> bool
    decreases d.len(), d.len() - pos, 0nat,
{
    if pos < 0 || pos + 1 >= d.len() {
        false
    } else {
        match length_header(d.subrange(pos + 1, d.len() as int)) {
            Err(_) => false,
            Ok((len, h)) => {
                let start = pos + 1 + h;
                let tag = d[pos];
                start + len <= d.len() && tag % 32 != 31 && d.subrange(pos + 1, start)
                    == length_octets(len) && if (tag / 32) % 2 == 1 {
                    reencodes(d.subrange(start, start + len), 0)
                } else {
                    value_octets((tag % 32) as u32, value_text(tag % 32, d.subrange(start, start + len)))
                        == Ok::<Seq<u8>, Failure>(d.subrange(start, start + len))
                }
            },
        }
    }
}

/// Whether every element of `d` from `pos` on is in canonical form (see
/// [`element_reencodes`]) and the last one ends exactly at the end of `d`.
pub open spec fn reencodes(d: Seq<u8>, pos: int) -> bool
    decreases d.len(), d.len() - pos, 1nat,
{
    if pos < 0 || pos > d.len() {
        false
    } else if pos == d.len() {
        true
    } else if pos + 1 == d.len() {
        false
    } else {
        match length_header(d.subrange(pos + 1, d.len() as int)) {
            Err(_) => false,
            Ok((len, h)) => pos + 1 + h + len <= d.len() && element_reencodes(d, pos) && reencodes(
                d,
                pos + 1 + h + len,
            ),
        }
    }
}

/// Whether a node, and every node below it, encodes to the bytes of its
/// span in `buf`.
pub open spec fn tree_reencodes(m: NodeModel, buf: Seq<u8>) -> bool
    decreases m,
{
    &&& 0 <= m.byte_offset
    &&& m.byte_offset + m.byte_length <= buf.len()
    &&& encode_spec(m) == Ok::<Seq<u8>, Failure>(
        buf.subrange(m.byte_offset, m.byte_offset + m.byte_length),
    )
    &&& match m.children {
        Some(ks) => all_reencode(ks, buf),
        None => true,
    }
}

/// Whether every node of `ks`, and every node below them, encodes to the
/// bytes of its span in `buf`.
pub open spec fn all_reencode(ks: Seq<NodeModel>, buf: Seq<u8>) -> bool
    decreases ks,
{
    if ks.len() == 0 {
        true
    } else {
        all_reencode(ks.drop_last(), buf) && tree_reencodes(ks.last(), buf)
    }
}

proof fn lemma_all_reencode(ks: Seq<NodeModel>, buf: Seq<u8>)
    ensures
        all_reencode(ks, buf) <==> forall|j: int| 0 <= j < ks.len() ==> #[trigger] tree_reencodes(ks[j], buf),
    decreases ks.len(),
{
    if ks.len() > 0 {
        lemma_all_reencode(ks.drop_last(), buf);
        if forall|j: int| 0 <= j < ks.len() ==> #[trigger] tree_reencodes(ks[j], buf) {
            assert forall|j: int| 0 <= j < ks.drop_last().len() implies #[trigger] tree_reencodes(ks.drop_last()[j], buf) by {
                assert(ks.drop_last()[j] == ks[j]);
            }
            assert(tree_reencodes(ks[ks.len() - 1], buf));
        }
        if all_reencode(ks, buf) {
            assert forall|j: int| 0 <= j < ks.len() implies #[trigger] tree_reencodes(ks[j], buf) by {
                if j < ks.len() - 1 {
                    assert(ks.drop_last()[j] == ks[j]);
                }
            }
        }
    }
}

proof fn lemma_caps(s: Seq<char>)
    requires
        s.len() <= 11,
        s.len() > 0 ==> 65 <= (s[0] as u32) <= 90,
        s.len() > 1 ==> 65 <= (s[1] as u32) <= 90,
        s.len() > 2 ==> 65 <= (s[2] as u32) <= 90,
        s.len() > 3 ==> 65 <= (s[3] as u32) <= 90,
        s.len() > 4 ==> 65 <= (s[4] as u32) <= 90,
        s.len() > 5 ==> 65 <= (s[5] as u32) <= 90,
        s.len() > 6 ==> 65 <= (s[6] as u32) <= 90,
        s.len() > 7 ==> 65 <= (s[7] as u32) <= 90,
        s.len() > 8 ==> 65 <= (s[8] as u32) <= 90,
        s.len() > 9 ==> 65 <= (s[9] as u32) <= 90,
        s.len() > 10 ==> 65 <= (s[10] as u32) <= 90,
    ensures
        ascii_upper(s) == s,
        all_ascii(s),
{
    assert forall|i: int| 0 <= i < s.len() implies upper_char(#[trigger] s[i]) == s[i] by {
        if i == 0 {
        } else if i == 1 {
        } else if i == 2 {
        } else if i == 3 {
        } else if i == 4 {
        } else if i == 5 {
        } else if i == 6 {
        } else if i == 7 {
        } else if i == 8 {
        } else if i == 9 {
        } else {
            assert(i == 10);
        }
    }
    assert(ascii_upper(s) =~= s);
    assert forall|i: int| 0 <= i < s.len() implies (#[trigger] s[i] as u32) < 128 by {
        if i == 0 {
        } else if i == 1 {
        } else if i == 2 {
        } else if i == 3 {
        } else if i == 4 {
        } else if i == 5 {
        } else if i == 6 {
        } else if i == 7 {
        } else if i == 8 {
        } else if i == 9 {
        } else {
            assert(i == 10);
        }
    }
}

proof fn lemma_class_bits(c: u8)
    requires
        c < 4,
    ensures
        class_bits(folded_upper(class_name(c))) == Some((c as int * 64) as u8),
{
    reveal_strlit("UNIVERSAL");
    reveal_strlit("APPLICATION");
    reveal_strlit("CONTEXT");
    reveal_strlit("PRIVATE");
    reveal_strlit("PEM");
    if c == 0 {
        lemma_caps("UNIVERSAL"@);
    } else if c == 1 {
        lemma_caps("APPLICATION"@);
        assert("APPLICATION"@.len() != "UNIVERSAL"@.len());
    } else if c == 2 {
        lemma_caps("CONTEXT"@);
        assert("CONTEXT"@.len() != "UNIVERSAL"@.len());
        assert("CONTEXT"@.len() != "APPLICATION"@.len());
    } else {
        lemma_caps("PRIVATE"@);
        assert("PRIVATE"@.len() != "UNIVERSAL"@.len());
        assert("PRIVATE"@.len() != "APPLICATION"@.len());
        assert("PRIVATE"@[0] != "CONTEXT"@[0]);
    }
}

/// The tag octet that the encoder computes from a decoded tag is the tag.
proof fn lemma_tag_octet(tag: u8)
    requires
        tag % 32 != 31,
    ensures
        tag_octet(class_name(tag / 64), (tag % 32) as u32, (tag / 32) % 2 == 1) == Ok::<
            u8,
            Failure,
        >(tag),
{
    lemma_class_bits(tag / 64);
}

proof fn lemma_encode_all_prepend(m: NodeModel, rest: Seq<NodeModel>, a: Seq<u8>, b: Seq<u8>)
    requires
        encode_spec(m) == Ok::<Seq<u8>, Failure>(a),
        encode_all(rest) == Ok::<Seq<u8>, Failure>(b),
    ensures
        encode_all(seq![m] + rest) == Ok::<Seq<u8>, Failure>(a + b),
    decreases rest.len(),
{
    if rest.len() == 0 {
        assert(b == Seq::<u8>::empty());
        let all = seq![m] + rest;
        assert(all.drop_last() =~= Seq::<NodeModel>::empty());
        assert(all.last() == m);
        assert(encode_all(all.drop_last()) == Ok::<Seq<u8>, Failure>(Seq::empty()));
        assert(encode_all(all) == Ok::<Seq<u8>, Failure>(Seq::empty() + a));
        assert(seq![m] + rest =~= seq![m]);
        assert(a + b =~= Seq::<u8>::empty() + a);
    } else {
        assert(encode_all(rest.drop_last()) is Ok);
        assert(encode_spec(rest.last()) is Ok);
        let b1 = encode_all(rest.drop_last())->Ok_0;
        let b2 = encode_spec(rest.last())->Ok_0;
        assert(b == b1 + b2);
        lemma_encode_all_prepend(m, rest.drop_last(), a, b1);
        let all = seq![m] + rest;
        assert(all.drop_last() =~= seq![m] + rest.drop_last());
        assert(all.last() == rest.last());
        assert(encode_all(all.drop_last()) == Ok::<Seq<u8>, Failure>(a + b1));
        assert(encode_all(all) == Ok::<Seq<u8>, Failure>(a + b1 + b2));
        assert(a + b1 + b2 =~= a + b);
    }
}

#[verifier::rlimit(100)]
/// The first element of `d[pos..]` decodes to a node that encodes to its
/// own span, as do the nodes below it.
proof fn lemma_first_node(buf: Seq<u8>, d: Seq<u8>, pos: int, base: int, depth: nat)
    requires
        0 <= base,
        base + d.len() <= buf.len(),
        d == buf.subrange(base, base + d.len()),
        0 <= pos < d.len(),
        element_reencodes(d, pos),
        elements_from(d, pos, base, depth) is Ok,
    ensures
        ({
            let (len, h) = length_header(d.subrange(pos + 1, d.len() as int))->Ok_0;
            let next = pos + 1 + h + len;
            let ms = elements_from(d, pos, base, depth)->Ok_0;
            &&& pos < next <= d.len()
            &&& elements_from(d, next, base, depth) is Ok
            &&& ms == seq![ms[0]] + elements_from(d, next, base, depth)->Ok_0
            &&& encode_spec(ms[0]) == Ok::<Seq<u8>, Failure>(d.subrange(pos, next))
            &&& tree_reencodes(ms[0], buf)
        }),
    decreases d.len(), d.len() - pos, 0nat,
{
    let (len, h) = length_header(d.subrange(pos + 1, d.len() as int))->Ok_0;
    let start = pos + 1 + h;
    let tag = d[pos];
    let content = d.subrange(start, start + len);
    let cons = (tag / 32) % 2 == 1;
    let ks = if cons {
        elements_from(content, 0, base + start, depth + 1)->Ok_0
    } else {
        Seq::<NodeModel>::empty()
    };
    let m = decoded_node(tag, content, base + pos, 1 + h as int, ks);
    let rest = elements_from(d, start + len, base, depth);
    assert(elements_from(d, pos, base, depth) == prepend(seq![m], rest));
    lemma_tag_octet(tag);
    if cons {
        assert(content =~= buf.subrange(base + start, base + start + content.len()));
        lemma_round_trip(buf, content, 0, base + start, depth + 1);
        assert(content.subrange(0, content.len() as int) =~= content);
    }
    let enc = seq![tag] + length_octets(len) + content;
    assert(encode_spec(m) == Ok::<Seq<u8>, Failure>(enc));
    assert(enc =~= d.subrange(pos, start + len));
    assert(d.subrange(pos, start + len) =~= buf.subrange(base + pos, base + pos + 1 + h + len));
    assert(m.byte_offset == base + pos);
    assert(m.byte_length == 1 + h + len);
    assert(0 <= m.byte_offset);
    assert(m.byte_offset + m.byte_length <= buf.len());
    assert(encode_spec(m) == Ok::<Seq<u8>, Failure>(
        buf.subrange(m.byte_offset, m.byte_offset + m.byte_length),
    ));
    if cons {
        lemma_all_reencode(ks, buf);
    }
    assert(tree_reencodes(m, buf));
    assert(elements_from(d, pos, base, depth)->Ok_0[0] == m);
}

/// Round trip: when the elements of `d` (which sits at `base` in `buf`)
/// from `pos` on are in canonical form and decode without error, encoding
/// the decoded nodes gives back `d[pos..]`, and every node of the tree
/// encodes to the bytes of its own span in `buf`.
pub proof fn lemma_round_trip(buf: Seq<u8>, d: Seq<u8>, pos: int, base: int, depth: nat)
    requires
        0 <= base,
        base + d.len() <= buf.len(),
        d == buf.subrange(base, base + d.len()),
        reencodes(d, pos),
        elements_from(d, pos, base, depth) is Ok,
    ensures
        encode_all(elements_from(d, pos, base, depth)->Ok_0) == Ok::<Seq<u8>, Failure>(
            d.subrange(pos, d.len() as int),
        ),
        forall|i: int|
            0 <= i < elements_from(d, pos, base, depth)->Ok_0.len() ==> #[trigger] tree_reencodes(
                elements_from(d, pos, base, depth)->Ok_0[i],
                buf,
            ),
    decreases d.len(), d.len() - pos, 1nat,
{
    let ms = elements_from(d, pos, base, depth)->Ok_0;
    if pos == d.len() {
        assert(ms =~= Seq::<NodeModel>::empty());
        assert(d.subrange(pos, d.len() as int) =~= Seq::<u8>::empty());
    } else {
        lemma_first_node(buf, d, pos, base, depth);
        let (len, h) = length_header(d.subrange(pos + 1, d.len() as int))->Ok_0;
        let next = pos + 1 + h + len;
        let rest = elements_from(d, next, base, depth)->Ok_0;
        lemma_round_trip(buf, d, next, base, depth);
        lemma_encode_all_prepend(ms[0], rest, d.subrange(pos, next), d.subrange(next, d.len() as int));
        assert(d.subrange(pos, next) + d.subrange(next, d.len() as int) =~= d.subrange(pos, d.len() as int));
        assert forall|i: int| 0 <= i < ms.len() implies #[trigger] tree_reencodes(ms[i], buf) by {
            if i > 0 {
                assert(ms[i] == rest[i - 1]);
            }
        }
    }
}

/// Round trip of a whole buffer: when a buffer in canonical form decodes
/// without error, its top-level nodes encode back to the buffer, and every
/// node of the tree encodes to `buffer[byte_offset .. byte_offset + byte_length]`.
pub proof fn lemma_decode_then_encode(d: Seq<u8>)
    requires
        reencodes(d, 0),
        decode_spec(d, 0) is Ok,
    ensures
        encode_all(decode_spec(d, 0)->Ok_0) == Ok::<Seq<u8>, Failure>(d),
        all_reencode(decode_spec(d, 0)->Ok_0, d),
{
    assert(d.subrange(0, d.len() as int) =~= d);
    lemma_round_trip(d, d, 0, 0, 0);
    lemma_all_reencode(decode_spec(d, 0)->Ok_0, d);
}

proof fn lemma_lower_literals()
    ensures
        folded_lower("TRUE"@) == "true"@,
        folded_lower("FALSE"@) == "false"@,
{
    reveal_strlit("TRUE");
    reveal_strlit("true");
    reveal_strlit("FALSE");
    reveal_strlit("false");
    let t = "TRUE"@;
    let f = "FALSE"@;
    assert forall|i: int| 0 <= i < t.len() implies lower_char(#[trigger] t[i]) == "true"@[i] by {
        if i == 0 {
        } else if i == 1 {
        } else if i == 2 {
        } else {
        }
    }
    assert forall|i: int| 0 <= i < f.len() implies lower_char(#[trigger] f[i]) == "false"@[i] by {
        if i == 0 {
        } else if i == 1 {
        } else if i == 2 {
        } else if i == 3 {
        } else {
        }
    }
    assert(ascii_lower(t) =~= "true"@);
    assert(ascii_lower(f) =~= "false"@);
    assert(all_ascii(t)) by {
        assert forall|i: int| 0 <= i < t.len() implies (#[trigger] t[i] as u32) < 128 by {
            if i == 0 {
            } else if i == 1 {
            } else if i == 2 {
            } else {
            }
        }
    }
    assert(all_ascii(f)) by {
        assert forall|i: int| 0 <= i < f.len() implies (#[trigger] f[i] as u32) < 128 by {
            if i == 0 {
            } else if i == 1 {
            } else if i == 2 {
            } else if i == 3 {
            } else {
            }
        }
    }
}

/// Primitive contents whose text reads back as the same octets: an empty
/// NULL, a BOOLEAN octet of 0x00 or 0xFF, and an INTEGER in its minimal
/// encoding of one to eight octets.
pub proof fn lemma_simple_values_round_trip(b: Seq<u8>)
    ensures
        b.len() == 0 ==> value_octets(5, value_text(5, b)) == Ok::<Seq<u8>, Failure>(b),
        (b == seq![0x00u8] || b == seq![0xFFu8]) ==> value_octets(1, value_text(1, b)) == Ok::<
            Seq<u8>,
            Failure,
        >(b),
        (1 <= b.len() <= 8 && b == twos_octets(signed_be(b))) ==> value_octets(2, value_text(2, b))
            == Ok::<Seq<u8>, Failure>(b),
{
    lemma_lower_literals();
    reveal_strlit("true");
    reveal_strlit("false");
    reveal_strlit("0xff");
    reveal_strlit("0x00");
    if b == seq![0x00u8] {
        assert(value_text(1, b) == "FALSE"@);
        assert("false"@.len() != "true"@.len() && "false"@.len() != "0xff"@.len());
    }
    if b == seq![0xFFu8] {
        assert(value_text(1, b) == "TRUE"@);
    }
    if b.len() == 0 {
        assert(b =~= Seq::<u8>::empty());
    }
    if 1 <= b.len() <= 8 && b == twos_octets(signed_be(b)) {
        lemma_integer_content_round_trip(b);
    }
}

/// OBJECT IDENTIFIER contents made of canonical arcs read back as the same octets.
pub proof fn lemma_oid_value_round_trip(first: nat, second: nat, rest: Seq<nat>)
    requires
        second < 40,
        first * 40 + second <= 255,
        forall|i: int| 0 <= i < rest.len() ==> #[trigger] rest[i] <= u32::MAX,
    ensures
        value_octets(6, value_text(6, oid_bytes(first, second, rest))) == Ok::<
            Seq<u8>,
            Failure,
        >(oid_bytes(first, second, rest)),
{
    lemma_oid_round_trip(first, second, rest);
}

proof fn lemma_unfold_first(d: Seq<u8>, pos: int, base: int, depth: nat)
    requires
        elements_from(d, pos, base, depth) is Ok,
        elements_from(d, pos, base, depth)->Ok_0.len() > 0,
    ensures
        ({
            let (len, h) = length_header(d.subrange(pos + 1, d.len() as int))->Ok_0;
            let next = pos + 1 + h + len;
            let ms = elements_from(d, pos, base, depth)->Ok_0;
            &&& 0 <= pos < next <= d.len()
            &&& length_header(d.subrange(pos + 1, d.len() as int)) is Ok
            &&& ms[0].byte_offset == base + pos
            &&& elements_from(d, next, base, depth) is Ok
            &&& ms == seq![ms[0]] + elements_from(d, next, base, depth)->Ok_0
        }),
{
}

/// Round trip, node by node: every node that decoding `d` (which sits at
/// `base` in `buf`) yields, and whose own element is in canonical form,
/// encodes to the bytes of its span, `buf[byte_offset .. byte_offset +
/// byte_length]`, as does every node below it.
pub proof fn lemma_node_round_trip(buf: Seq<u8>, d: Seq<u8>, pos: int, base: int, depth: nat, i: int)
    requires
        0 <= base,
        base + d.len() <= buf.len(),
        d == buf.subrange(base, base + d.len()),
        elements_from(d, pos, base, depth) is Ok,
        0 <= i < elements_from(d, pos, base, depth)->Ok_0.len(),
        element_reencodes(d, elements_from(d, pos, base, depth)->Ok_0[i].byte_offset - base),
    ensures
        tree_reencodes(elements_from(d, pos, base, depth)->Ok_0[i], buf),
    decreases i,
{
    let ms = elements_from(d, pos, base, depth)->Ok_0;
    lemma_unfold_first(d, pos, base, depth);
    let (len, h) = length_header(d.subrange(pos + 1, d.len() as int))->Ok_0;
    let next = pos + 1 + h + len;
    if i == 0 {
        lemma_first_node(buf, d, pos, base, depth);
    } else {
        let rest = elements_from(d, next, base, depth)->Ok_0;
        assert(ms[i] == rest[i - 1]);
        lemma_node_round_trip(buf, d, next, base, depth, i - 1);
    }
}

proof fn lemma_quoted_reads_back(c: Seq<u8>)
    requires
        valid_utf8(c),
    ensures
        unquote(trim(quoted(decode_utf8(c)))) == decode_utf8(c),
        is_quoted(trim(quoted(decode_utf8(c)))),
        encode_utf8(decode_utf8(c)) == c,
{
    let x = decode_utf8(c);
    let q = quoted(x);
    assert(q[0] == '"');
    assert(q.last() == '"');
    assert(!is_ws(q[0]));
    assert(trim_start(q) =~= q);
    assert(!is_ws(trim_start(q).last()));
    assert(trim_end(trim_start(q)) =~= q);
    assert(q.subrange(1, q.len() - 1) =~= x);
    decode_utf8_encode_utf8(c);
}

/// Text contents read back as the same octets: character-string and time
/// contents that are valid UTF-8, and OCTET STRING contents that are
/// printable UTF-8 text.
pub proof fn lemma_text_values_round_trip(t: u8, c: Seq<u8>)
    requires
        valid_utf8(c),
    ensures
        (t == 12 || t == 19 || t == 22 || t == 23 || t == 24) ==> value_octets(
            t as u32,
            value_text(t, c),
        ) == Ok::<Seq<u8>, Failure>(c),
        printable(decode_utf8(c)) ==> value_octets(4, value_text(4, c)) == Ok::<Seq<u8>, Failure>(c),
{
    lemma_quoted_reads_back(c);
}

/// BIT STRING contents with an unused-bit count of at most 7 and zero
/// unused bits read back as the same octets.
pub proof fn lemma_bit_string_value_round_trip(c: Seq<u8>)
    requires
        c.len() >= 1,
        c.len() >= 2 ==> c[0] <= 7 && c.last() as nat % two_pow(c[0] as nat) == 0,
    ensures
        value_octets(3, value_text(3, c)) == Ok::<Seq<u8>, Failure>(c),
{
    lemma_bit_string_round_trip(c);
}

/// Whether `c` is content of tag number `t` whose rendered text the value
/// parser reads back as `c`: BOOLEAN 0x00 or 0xFF; INTEGER in its minimal
/// encoding, or longer than eight octets; BIT STRING with a count of at most
/// 7 and zero unused bits (or the count alone); OCTET STRING that is
/// printable UTF-8 text; empty NULL; an OID made of canonical arcs; and the
/// character-string and time types when they are UTF-8.
pub open spec fn canonical_content(t: u8, c: Seq<u8>) -> bool {
    if t == 1 {
        c == seq![0x00u8] || c == seq![0xFFu8]
    } else if t == 2 {
        (1 <= c.len() <= 8 && c == twos_octets(signed_be(c))) || c.len() > 8
    } else if t == 3 {
        c.len() >= 1 && (c.len() >= 2 ==> c[0] <= 7 && c.last() as nat % two_pow(c[0] as nat) == 0)
    } else if t == 4 {
        valid_utf8(c) && printable(decode_utf8(c))
    } else if t == 5 {
        c.len() == 0
    } else if t == 6 {
        exists|first: nat, second: nat, rest: Seq<nat>|
            second < 40 && first * 40 + second <= 255 && (forall|i: int|
                0 <= i < rest.len() ==> #[trigger] rest[i] <= u32::MAX) && c == oid_bytes(
                first,
                second,
                rest,
            )
    } else if t == 12 || t == 19 || t == 22 || t == 23 || t == 24 {
        valid_utf8(c)
    } else {
        false
    }
}

/// Render and parse are inverses: the text shown for canonical content of
/// any covered tag number reads back as the same content.
pub proof fn lemma_value_round_trip(t: u8, c: Seq<u8>)
    requires
        canonical_content(t, c),
    ensures
        value_octets(t as u32, value_text(t, c)) == Ok::<Seq<u8>, Failure>(c),
{
    if t == 1 || t == 5 {
        lemma_simple_values_round_trip(c);
    } else if t == 2 {
        if c.len() > 8 {
            lemma_long_integer_round_trip(c);
        } else {
            lemma_simple_values_round_trip(c);
        }
    } else if t == 3 {
        lemma_bit_string_value_round_trip(c);
    } else if t == 6 {
        let (first, second, rest) = choose|first: nat, second: nat, rest: Seq<nat>|
            second < 40 && first * 40 + second <= 255 && (forall|i: int|
                0 <= i < rest.len() ==> #[trigger] rest[i] <= u32::MAX) && c == oid_bytes(
                first,
                second,
                rest,
            );
        lemma_oid_value_round_trip(first, second, rest);
    } else {
        lemma_text_values_round_trip(t, c);
    }
}

} // verus!
