//! The PEM text envelope around the binary payload: the decoder entry points
//! that start from PEM text, relying on the `pem` crate to unwrap it.
use vstd::prelude::*;
use crate::decoder::{decode_der_recursive, decode_spec};
use crate::error::DecodeError;
use crate::node::{models, node_model, Asn1Node, NodeModel};
use crate::text::push_char;

verus! {

#[verifier::external_type_specification]
#[verifier::external_body]
pub struct ExPemError(pem::PemError);

/// The label and the decoded body of the PEM block that `pem::parse` finds
/// in a text, if it finds one.
pub uninterp spec fn pem_block(s: Seq<char>) -> Option<(Seq<char>, Seq<u8>)>;

/// Relies on `pem::parse`: the label and the base64-decoded body of the
/// first PEM block in the text, which depend on the text alone.
#[verifier::external_body]
fn parse_pem(input: &str) -> (r: Result<(String, Vec<u8>), pem::PemError>)
    ensures
        match r {
            Ok((tag, body)) => pem_block(input@) == Some((tag@, body@)),
            Err(_) => pem_block(input@) is None,
        },
{
    match pem::parse(input) {
        Ok(p) => Ok((p.tag().to_string(), p.into_contents())),
        Err(e) => Err(e),
    }
}

/// The model of the synthetic root that holds the top-level elements of a
/// payload of `n` bytes that came in a PEM block labelled `tag`.
pub open spec fn root_model(tag: Seq<char>, n: nat, kids: Seq<NodeModel>) -> NodeModel {
    NodeModel {
        label: "PEM: "@ + tag,
        tag_class: "PEM"@,
        tag_number: 0,
        is_constructed: true,
        byte_offset: 0,
        byte_length: n as int,
        length: n as int,
        value: None,
        children: Some(kids),
    }
}

/// What decoding a payload under the label `tag` gives: the root model, or
/// the decoder's error.
pub open spec fn tree_spec(tag: Seq<char>, d: Seq<u8>) -> Result<NodeModel, DecodeError> {
    match decode_spec(d, 0) {
        Ok(ms) => Ok(root_model(tag, d.len(), ms)),
        Err(e) => Err(e),
    }
}

/// Whether an executable decoding result agrees with its specification.
pub open spec fn tree_agrees(r: Result<Asn1Node, DecodeError>, s: Result<NodeModel, DecodeError>) -> bool {
    match s {
        Ok(m) => r is Ok && node_model(r->Ok_0) == m,
        Err(e) => r is Err && r->Err_0 == e,
    }
}

/// Decodes a binary payload into a tree under a synthetic root labelled
/// with the envelope's label.
pub fn decode_tree(tag: &str, data: &[u8]) -> (r: Result<Asn1Node, DecodeError>)
    ensures
        tree_agrees(r, tree_spec(tag@, data@)),
{
    let mut nodes: Vec<Asn1Node> = Vec::new();
    match decode_der_recursive(data, &mut nodes, 0) {
        Ok(()) => {},
        Err(e) => {
            return Err(e);
        },
    }
    let mut label = String::from_str("PEM: ");
    label.append(tag);
    let root = Asn1Node {
        label: label,
        tag_class: String::from_str("PEM"),
        tag_number: 0,
        is_constructed: true,
        byte_offset: 0,
        byte_length: data.len(),
        length: data.len(),
        value: None,
        children: Some(nodes),
    };
    proof {
        assert(models(Seq::<Asn1Node>::empty()) =~= Seq::<NodeModel>::empty());
        match decode_spec(data@, 0) {
            Ok(ms) => {
                assert(Seq::<NodeModel>::empty() + ms =~= ms);
            },
            Err(_) => {},
        }
    }
    Ok(root)
}

/// Decodes the payload of PEM text into a tree; text without a readable
/// PEM block gives [`DecodeError::InvalidEnvelope`].
pub fn decode_pem_internal(pem_input: &str) -> (r: Result<Asn1Node, DecodeError>)
    ensures
        match pem_block(pem_input@) {
            None => r is Err && r->Err_0 == DecodeError::InvalidEnvelope,
            Some((tag, body)) => tree_agrees(r, tree_spec(tag, body)),
        },
{
    match parse_pem(pem_input) {
        Ok((tag, body)) => decode_tree(tag.as_str(), body.as_slice()),
        Err(_) => Err(DecodeError::InvalidEnvelope),
    }
}

/// The lowercase hexadecimal digit for `d`.
pub open spec fn hex_char_lower(d: nat) -> char {
    if d < 10 {
        ((d + 48) as u8) as char
    } else {
        ((d + 87) as u8) as char
    }
}

/// Bytes as lowercase hexadecimal pairs, with no separator.
pub open spec fn hex_lower(b: Seq<u8>) -> Seq<char>
    decreases b.len(),
{
    if b.len() == 0 {
        Seq::empty()
    } else {
        hex_lower(b.drop_last()) + seq![hex_char_lower(b.last() as nat / 16), hex_char_lower(b.last() as nat % 16)]
    }
}

fn lower_digit(d: u8) -> (c: char)
    requires
        d < 16,
    ensures
        c == hex_char_lower(d as nat),
{
    if d < 10 {
        (d + 48) as char
    } else {
        (d + 87) as char
    }
}

/// Bytes as lowercase hexadecimal text.
pub fn bytes_to_hex(b: &[u8]) -> (r: String)
    ensures
        r@ == hex_lower(b@),
{
    let mut s = String::new();
    let mut i: usize = 0;
    while i < b.len()
        invariant
            i <= b.len(),
            s@ == hex_lower(b@.take(i as int)),
        decreases b.len() - i,
    {
        push_char(&mut s, lower_digit(b[i] / 16));
        push_char(&mut s, lower_digit(b[i] % 16));
        i = i + 1;
        assert(b@.take(i as int).drop_last() =~= b@.take(i - 1));
        assert(s@ =~= hex_lower(b@.take(i as int)));
    }
    assert(b@.take(b.len() as int) =~= b@);
    s
}

/// The payload of PEM text as lowercase hexadecimal.
pub fn pem_to_hex(pem_input: &str) -> (r: Result<String, DecodeError>)
    ensures
        match pem_block(pem_input@) {
            None => r == Err::<String, DecodeError>(DecodeError::InvalidEnvelope),
            Some((_, body)) => r is Ok && r->Ok_0@ == hex_lower(body),
        },
{
    match parse_pem(pem_input) {
        Ok((_, body)) => Ok(bytes_to_hex(body.as_slice())),
        Err(_) => Err(DecodeError::InvalidEnvelope),
    }
}

} // verus!
