//! A two-way codec between DER-encoded ASN.1 bytes and an inspectable node
//! tree whose primitive values are shown as text.
//!
//! The decoder walks a buffer of tag-length-value elements into a tree of
//! [`Asn1Node`]s, recording where each element was found and rendering each
//! primitive value as text according to its tag number. The encoder turns a
//! tree, possibly edited by hand, back into canonical bytes, reading each
//! value's text with the parser that matches its tag number.
pub mod bitstring;
pub mod decoder;
pub mod encoder;
pub mod envelope;
pub mod error;
pub mod hex;
pub mod integer;
pub mod length;
pub mod node;
pub mod oid;
pub mod render;
pub mod roundtrip;
pub mod text;

pub use bitstring::{decode_bit_string, encode_bit_string};
pub use decoder::{decode_der_recursive, MAX_DEPTH};
pub use encoder::{
    encode_asn1_tree, encode_boolean, encode_null, encode_octet_string, encode_string, encode_tag,
    encode_value,
};
pub use envelope::{bytes_to_hex, decode_pem_internal, decode_tree, pem_to_hex};
pub use error::{DecodeError, EncodeError, EncodeErrorKind};
pub use hex::hex_to_bytes;
pub use integer::{decode_integer, encode_integer};
pub use length::{encode_length, parse_length};
pub use node::Asn1Node;
pub use oid::{decode_oid, decode_relative_oid, encode_object_identifier, encode_oid_component};
pub use render::{
    decode_boolean, decode_generalized_time, decode_ia5_string, decode_octet_string,
    decode_printable_string, decode_utc_time, decode_utf8_string, decode_value,
    get_universal_tag_name,
};
