//! The decoder engine: walks a buffer of TLV elements left to right,
//! recursing into constructed ones, and records for each element where it
//! was found and how its content reads.
use vstd::prelude::*;
use crate::bitstring::{bit_string_text, decode_bit_string};
use crate::error::DecodeError;
use crate::length::{length_header, parse_length};
use crate::node::{lemma_models_push, models, node_model, Asn1Node, NodeModel};
use crate::render::{decode_value, get_universal_tag_name, tag_name, value_text};
use crate::text::{nat_str, push_decimal};

verus! {

/// How deep constructed elements may nest before decoding gives up.
pub const MAX_DEPTH: usize = 64;

/// The class name for the top two bits of a tag byte.
pub open spec fn class_name(cls: u8) -> Seq<char> {
    if cls == 0 {
        "UNIVERSAL"@
    } else if cls == 1 {
        "APPLICATION"@
    } else if cls == 2 {
        "CONTEXT"@
    } else {
        "PRIVATE"@
    }
}

fn class_name_str(cls: u8) -> (r: &'static str)
    ensures
        r@ == class_name(cls),
{
    if cls == 0 {
        "UNIVERSAL"
    } else if cls == 1 {
        "APPLICATION"
    } else if cls == 2 {
        "CONTEXT"
    } else {
        "PRIVATE"
    }
}

/// The display label of an element: the type name and tag number for the
/// universal class, the class and tag number otherwise.
pub open spec fn label_text(cls: u8, num: u8) -> Seq<char> {
    if cls == 0 {
        tag_name(num) + " (Tag "@ + nat_str(num as nat) + ")"@
    } else {
        "["@ + class_name(cls) + "] Tag "@ + nat_str(num as nat)
    }
}

fn tag_label(cls: u8, num: u8) -> (r: String)
    ensures
        r@ == label_text(cls, num),
{
    let mut s;
    if cls == 0 {
        s = String::from_str(get_universal_tag_name(num));
        s.append(" (Tag ");
        push_decimal(&mut s, num as u128);
        s.append(")");
    } else {
        s = String::from_str("[");
        s.append(class_name_str(cls));
        s.append("] Tag ");
        push_decimal(&mut s, num as u128);
    }
    assert(s@ =~= label_text(cls, num));
    s
}

/// The model of the element with tag byte `tag` and content `content`,
/// found at `offset` with a header of `header` bytes.
pub open spec fn decoded_node(
    tag: u8,
    content: Seq<u8>,
    offset: int,
    header: int,
    kids: Seq<NodeModel>,
) -> NodeModel {
    let num = tag % 32;
    let cons = (tag / 32) % 2 == 1;
    NodeModel {
        label: label_text(tag / 64, num),
        tag_class: class_name(tag / 64),
        tag_number: num as u32,
        is_constructed: cons,
        byte_offset: offset,
        byte_length: header + content.len(),
        length: content.len() as int,
        value: if !cons {
            Some(value_text(num, content))
        } else if num == 3 {
            Some(bit_string_text(content))
        } else {
            None
        },
        children: if cons {
            Some(kids)
        } else {
            None
        },
    }
}

/// `p` in front of the elements of `r`, or the error of `r`.
pub open spec fn prepend(p: Seq<NodeModel>, r: Result<Seq<NodeModel>, DecodeError>) -> Result<
    Seq<NodeModel>,
    DecodeError,
> {
    match r {
        Ok(s) => Ok(p + s),
        Err(e) => Err(e),
    }
}

/// The elements found in `d` from position `pos` on, for a buffer that
/// starts at `base` in the whole input and lies `depth` levels deep.
/// Running out of bytes ends the walk quietly; a length header with zero or
/// more than four octets, or nesting past [`MAX_DEPTH`], is an error.
pub open spec fn elements_from(d: Seq<u8>, pos: int, base: int, depth: nat) -> Result<
    Seq<NodeModel>,
    DecodeError,
>
    decreases d.len(), d.len() - pos,
{
    if pos < 0 || pos + 1 >= d.len() {
        Ok(Seq::empty())
    } else {
        match length_header(d.subrange(pos + 1, d.len() as int)) {
            Err(e) => if e == DecodeError::InvalidLengthEncoding {
                Err(e)
            } else {
                Ok(Seq::empty())
            },
            Ok((len, h)) => {
                let start = pos + 1 + h;
                if start + len > d.len() {
                    Ok(Seq::empty())
                } else {
                    let tag = d[pos];
                    let content = d.subrange(start, start + len);
                    let kids = if (tag / 32) % 2 == 1 {
                        if depth >= MAX_DEPTH {
                            Err(DecodeError::TooDeeplyNested)
                        } else {
                            elements_from(content, 0, base + start, depth + 1)
                        }
                    } else {
                        Ok(Seq::empty())
                    };
                    match kids {
                        Err(e) => Err(e),
                        Ok(ks) => prepend(
                            seq![decoded_node(tag, content, base + pos, 1 + h as int, ks)],
                            elements_from(d, start + len, base, depth),
                        ),
                    }
                }
            },
        }
    }
}

/// The elements of a whole buffer that starts at `base` in the input.
pub open spec fn decode_spec(d: Seq<u8>, base: int) -> Result<Seq<NodeModel>, DecodeError> {
    elements_from(d, 0, base, 0)
}

/// The models of the children, if there are any.
pub open spec fn kids_models(kids: Option<Vec<Asn1Node>>) -> Seq<NodeModel> {
    match kids {
        Some(k) => models(k@),
        None => Seq::empty(),
    }
}

/// Builds the node of one element from its tag byte, content, position,
/// header size and, for a constructed element, its children.
fn new_node(
    tag: u8,
    content: &[u8],
    offset: usize,
    header: usize,
    kids: Option<Vec<Asn1Node>>,
) -> (r: Asn1Node)
    requires
        header + content.len() <= usize::MAX,
        ((tag / 32) % 2 == 1) == (kids is Some),
    ensures
        node_model(r) == decoded_node(
            tag,
            content@,
            offset as int,
            header as int,
            kids_models(kids),
        ),
{
    let num = tag % 32;
    let cons = (tag / 32) % 2 == 1;
    let cls = tag / 64;
    let value = if !cons {
        Some(decode_value(num, content))
    } else if num == 3 {
        Some(decode_bit_string(content))
    } else {
        None
    };
    Asn1Node {
        label: tag_label(cls, num),
        tag_class: String::from_str(class_name_str(cls)),
        tag_number: num as u32,
        is_constructed: cons,
        byte_offset: offset,
        byte_length: header + content.len(),
        length: content.len(),
        value: value,
        children: kids,
    }
}

fn decode_elements(
    data: &[u8],
    nodes: &mut Vec<Asn1Node>,
    base_offset: usize,
    depth: usize,
) -> (r: Result<(), DecodeError>)
    requires
        base_offset + data.len() <= usize::MAX,
        depth <= MAX_DEPTH,
    ensures
        match elements_from(data@, 0, base_offset as int, depth as nat) {
            Ok(ms) => r is Ok && models(final(nodes)@) == models(old(nodes)@) + ms,
            Err(e) => r == Err::<(), DecodeError>(e),
        },
    decreases data.len(),
{
    let ghost d = data@;
    let ghost base = base_offset as int;
    let ghost mut added: Seq<NodeModel> = Seq::empty();
    let mut pos: usize = 0;
    assert(models(old(nodes)@) + added =~= models(old(nodes)@));
    assert(prepend(added, elements_from(d, 0, base, depth as nat)) =~= elements_from(d, 0, base, depth as nat)) by {
        match elements_from(d, 0, base, depth as nat) {
            Ok(s) => {
                assert(added + s =~= s);
            },
            Err(_) => {},
        }
    }
    while pos < data.len()
        invariant
            d == data@,
            base == base_offset as int,
            pos <= data.len(),
            base_offset + data.len() <= usize::MAX,
            depth <= MAX_DEPTH,
            models(nodes@) == models(old(nodes)@) + added,
            elements_from(d, 0, base, depth as nat) == prepend(
                added,
                elements_from(d, pos as int, base, depth as nat),
            ),
        ensures
            elements_from(d, pos as int, base, depth as nat) == Ok::<Seq<NodeModel>, DecodeError>(
                Seq::empty(),
            ),
        decreases data.len() - pos,
    {
        if pos + 1 >= data.len() {
            break;
        }
        let tag = data[pos];
        let ghost e_here = elements_from(d, pos as int, base, depth as nat);
        let hdr = &data[pos + 1..data.len()];
        assert(hdr@ == d.subrange(pos + 1, d.len() as int));
        let (length, hlen) = match parse_length(hdr) {
            Ok(x) => x,
            Err(e) => {
                if e == DecodeError::InvalidLengthEncoding {
                    assert(e_here == Err::<Seq<NodeModel>, DecodeError>(e));
                    return Err(e);
                }
                assert(e_here == Ok::<Seq<NodeModel>, DecodeError>(Seq::empty()));
                break;
            },
        };
        assert(length_header(d.subrange(pos + 1, d.len() as int)) == Ok::<(nat, nat), DecodeError>(
            (length as nat, hlen as nat),
        ));
        let start = pos + 1 + hlen;
        if length > data.len() - start {
            assert(e_here == Ok::<Seq<NodeModel>, DecodeError>(Seq::empty()));
            break;
        }
        let content = &data[start..start + length];
        let ghost cv = content@;
        assert(cv == d.subrange(start as int, start + length));
        let cons = (tag / 32) % 2 == 1;
        let kids = if cons {
            if depth >= MAX_DEPTH {
                assert(e_here == Err::<Seq<NodeModel>, DecodeError>(DecodeError::TooDeeplyNested));
                return Err(DecodeError::TooDeeplyNested);
            }
            let mut kids: Vec<Asn1Node> = Vec::new();
            match decode_elements(content, &mut kids, base_offset + start, depth + 1) {
                Ok(()) => {},
                Err(e) => {
                    assert(e_here == Err::<Seq<NodeModel>, DecodeError>(e));
                    return Err(e);
                },
            }
            assert(models(Seq::<Asn1Node>::empty()) =~= Seq::<NodeModel>::empty());
            assert(Seq::<NodeModel>::empty() + models(kids@) =~= models(kids@));
            Some(kids)
        } else {
            None
        };
        let ghost kids_model = kids_models(kids);
        let node = new_node(tag, content, base_offset + pos, 1 + hlen, kids);
        let ghost m = decoded_node(tag, cv, base + pos, 1 + hlen, kids_model);
        assert(e_here == prepend(
            seq![m],
            elements_from(d, start + length, base, depth as nat),
        ));
        let ghost before = nodes@;
        nodes.push(node);
        proof {
            lemma_models_push(before, node);
            let rest = elements_from(d, start + length, base, depth as nat);
            match rest {
                Ok(s) => {
                    assert(added + (seq![m] + s) =~= added.push(m) + s);
                },
                Err(_) => {},
            }
            assert(models(old(nodes)@) + added.push(m) =~= (models(old(nodes)@) + added).push(m));
            added = added.push(m);
        }
        pos = start + length;
    }
    assert(added + Seq::<NodeModel>::empty() =~= added);
    Ok(())
}

/// Decodes the TLV elements of `data`, appending one node per top-level
/// element to `nodes`; `base_offset` is where `data` starts in the input.
pub fn decode_der_recursive(
    data: &[u8],
    nodes: &mut Vec<Asn1Node>,
    base_offset: usize,
) -> (r: Result<(), DecodeError>)
    requires
        base_offset + data.len() <= usize::MAX,
    ensures
        match decode_spec(data@, base_offset as int) {
            Ok(ms) => r is Ok && models(final(nodes)@) == models(old(nodes)@) + ms,
            Err(e) => r == Err::<(), DecodeError>(e),
        },
{
    decode_elements(data, nodes, base_offset, 0)
}

/// A length header read from a prefix of the bytes that hold a complete
/// header is the same header, or runs out of bytes.
proof fn lemma_length_header_prefix(q: Seq<u8>, j: int, len: nat, h: nat)
    requires
        length_header(q) == Ok::<(nat, nat), DecodeError>((len, h)),
        1 <= j <= q.len(),
    ensures
        j >= h ==> length_header(q.take(j)) == Ok::<(nat, nat), DecodeError>((len, h)),
        j < h ==> length_header(q.take(j)) == Err::<(nat, nat), DecodeError>(
            DecodeError::UnexpectedEnd,
        ),
{
    let p = q.take(j);
    if q[0] >= 128 && j >= h {
        assert(p.subrange(1, h as int) =~= q.subrange(1, h as int));
    }
}

/// The end of a decoded node's span, relative to the buffer that starts at `base`.
pub open spec fn node_end(m: NodeModel, base: int) -> int {
    m.byte_offset - base + m.byte_length
}

/// Truncation tolerance: cutting a buffer that decodes without error at any
/// point `k` also decodes without error, to exactly those of its elements
/// that end at or before the cut; the element the cut falls in is left out
/// and nothing is reported.
pub proof fn lemma_truncation(d: Seq<u8>, pos: int, base: int, depth: nat, k: int)
    requires
        0 <= pos <= k <= d.len(),
        elements_from(d, pos, base, depth) is Ok,
    ensures
        ({
            let ms = elements_from(d, pos, base, depth)->Ok_0;
            let r = elements_from(d.take(k), pos, base, depth);
            &&& r is Ok
            &&& r->Ok_0.len() <= ms.len()
            &&& r->Ok_0 == ms.take(r->Ok_0.len() as int)
            &&& forall|i: int| 0 <= i < r->Ok_0.len() ==> node_end(#[trigger] ms[i], base) <= k
            &&& r->Ok_0.len() < ms.len() ==> node_end(ms[r->Ok_0.len() as int], base) > k
        }),
    decreases d.len() - pos,
{
    let t = d.take(k);
    let ms = elements_from(d, pos, base, depth)->Ok_0;
    if pos + 1 >= d.len() {
        assert(ms =~= Seq::<NodeModel>::empty());
        assert(elements_from(t, pos, base, depth) == Ok::<Seq<NodeModel>, DecodeError>(Seq::empty()));
    } else {
        let q = d.subrange(pos + 1, d.len() as int);
        match length_header(q) {
            Err(e) => {
                assert(ms =~= Seq::<NodeModel>::empty());
                if pos + 1 < k {
                    assert(t.subrange(pos + 1, k) =~= q.take(k - pos - 1));
                    assert(q[0] >= 128);
                }
                assert(elements_from(t, pos, base, depth) == Ok::<Seq<NodeModel>, DecodeError>(
                    Seq::empty(),
                ));
            },
            Ok((len, h)) => {
                let start = pos + 1 + h;
                if start + len > d.len() {
                    assert(ms =~= Seq::<NodeModel>::empty());
                    if pos + 1 < k {
                        assert(t.subrange(pos + 1, k) =~= q.take(k - pos - 1));
                        lemma_length_header_prefix(q, k - pos - 1, len, h);
                    }
                    assert(elements_from(t, pos, base, depth) == Ok::<Seq<NodeModel>, DecodeError>(
                        Seq::empty(),
                    ));
                } else {
                    let rest = elements_from(d, start + len, base, depth);
                    assert(rest is Ok);
                    let m = ms[0];
                    assert(ms == seq![m] + rest->Ok_0);
                    assert(node_end(m, base) == start + len);
                    if start + len > k {
                        if pos + 1 < k {
                            assert(t.subrange(pos + 1, k) =~= q.take(k - pos - 1));
                            lemma_length_header_prefix(q, k - pos - 1, len, h);
                        }
                        assert(elements_from(t, pos, base, depth) == Ok::<
                            Seq<NodeModel>,
                            DecodeError,
                        >(Seq::empty()));
                        assert(ms.take(0) =~= Seq::<NodeModel>::empty());
                    } else {
                        assert(t.subrange(pos + 1, t.len() as int) =~= q.take(k - pos - 1));
                        lemma_length_header_prefix(q, k - pos - 1, len, h);
                        assert(t.subrange(start, start + len) =~= d.subrange(start, start + len));
                        assert(t[pos] == d[pos]);
                        lemma_truncation(d, start + len, base, depth, k);
                        let rt = elements_from(t, start + len, base, depth)->Ok_0;
                        let rs = rest->Ok_0;
                        assert(elements_from(t, pos, base, depth) == prepend(
                            seq![m],
                            elements_from(t, start + len, base, depth),
                        ));
                        assert(seq![m] + rt =~= ms.take(rt.len() + 1 as int)) by {
                            assert(rt =~= rs.take(rt.len() as int));
                        }
                        assert forall|i: int| 0 <= i < rt.len() + 1 implies node_end(
                            #[trigger] ms[i],
                            base,
                        ) <= k by {
                            if i > 0 {
                                assert(ms[i] == rs[i - 1]);
                            }
                        }
                        if rt.len() + 1 < ms.len() {
                            assert(ms[rt.len() as int + 1] == rs[rt.len() as int]);
                        }
                    }
                }
            },
        }
    }
}

} // verus!
