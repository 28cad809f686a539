use asn1_web_decoder::{
    bytes_to_hex, decode_bit_string, decode_der_recursive, decode_integer, decode_octet_string,
    decode_oid, decode_pem_internal, decode_relative_oid, decode_tree, decode_utf8_string,
    decode_value, encode_asn1_tree, encode_bit_string, encode_boolean, encode_integer,
    encode_length, encode_object_identifier, encode_octet_string, encode_tag, encode_value,
    get_universal_tag_name, hex_to_bytes, parse_length, pem_to_hex, Asn1Node, DecodeError,
    EncodeError, EncodeErrorKind,
};

fn decode(bytes: &[u8]) -> Result<Vec<Asn1Node>, DecodeError> {
    let mut nodes = Vec::new();
    decode_der_recursive(bytes, &mut nodes, 0).map(|_| nodes)
}

fn wrap(inner: Vec<u8>) -> Vec<u8> {
    let mut out = vec![0x30];
    out.extend(encode_length(inner.len()).unwrap());
    out.extend(inner);
    out
}

#[test]
fn sequence_with_one_integer_decodes_with_offsets() {
    let nodes = decode(&[0x30, 0x03, 0x02, 0x01, 0x01]).unwrap();
    assert_eq!(nodes.len(), 1);
    let seq = &nodes[0];
    assert_eq!(seq.tag_class, "UNIVERSAL");
    assert_eq!(seq.tag_number, 16);
    assert_eq!(seq.label, "SEQUENCE (Tag 16)");
    assert!(seq.is_constructed);
    assert_eq!((seq.byte_offset, seq.byte_length), (0, 5));
    assert_eq!(seq.length, 3);
    assert!(seq.value.is_none());
    let kids = seq.children.as_ref().unwrap();
    assert_eq!(kids.len(), 1);
    let int = &kids[0];
    assert_eq!(int.tag_class, "UNIVERSAL");
    assert_eq!(int.tag_number, 2);
    assert_eq!(int.label, "INTEGER (Tag 2)");
    assert_eq!(int.value.as_deref(), Some("1"));
    assert_eq!((int.byte_offset, int.byte_length), (2, 3));
    assert!(int.children.is_none());
}

#[test]
fn context_tag_zero_holds_an_integer() {
    let nodes = decode(&[0xA0, 0x03, 0x02, 0x01, 0x05]).unwrap();
    let node = &nodes[0];
    assert_eq!(node.tag_class, "CONTEXT");
    assert_eq!(node.tag_number, 0);
    assert!(node.is_constructed);
    assert_eq!(node.label, "[CONTEXT] Tag 0");
    let kids = node.children.as_ref().unwrap();
    assert_eq!(kids.len(), 1);
    assert_eq!(kids[0].tag_number, 2);
    assert_eq!(kids[0].value.as_deref(), Some("5"));
}

#[test]
fn oid_bytes_decode_and_encode_back() {
    let bytes = vec![0x2A, 0x86, 0x48, 0x86, 0xF7, 0x0D];
    let text = decode_oid(&bytes);
    assert_eq!(text, "1.2.840.113549");
    assert_eq!(encode_object_identifier(&text).unwrap(), bytes);
}

#[test]
fn oid_boundary_arcs_round_trip() {
    let text = "1.2.0.127.128.16383.16384";
    let bytes = encode_object_identifier(text).unwrap();
    assert_eq!(
        bytes,
        vec![0x2A, 0x00, 0x7F, 0x81, 0x00, 0xFF, 0x7F, 0x81, 0x80, 0x00]
    );
    assert_eq!(decode_oid(&bytes), text);
    let rsa = encode_object_identifier("1.2.840.113549").unwrap();
    assert_eq!(decode_oid(&rsa), "1.2.840.113549");
}

#[test]
fn length_headers_round_trip() {
    for (n, size) in [(0usize, 1usize), (1, 1), (127, 1), (128, 2), (255, 2), (256, 3), (65535, 3)] {
        let header = encode_length(n).unwrap();
        assert_eq!(header.len(), size);
        assert_eq!(parse_length(&header).unwrap(), (n, size));
    }
}

#[test]
fn integers_round_trip() {
    let cases: [(&str, Vec<u8>); 9] = [
        ("0", vec![0x00]),
        ("127", vec![0x7F]),
        ("128", vec![0x00, 0x80]),
        ("255", vec![0x00, 0xFF]),
        ("256", vec![0x01, 0x00]),
        ("-1", vec![0xFF]),
        ("-128", vec![0x80]),
        ("-129", vec![0xFF, 0x7F]),
        ("-256", vec![0xFF, 0x00]),
    ];
    for (text, bytes) in cases.iter() {
        assert_eq!(&encode_integer(text).unwrap(), bytes);
        assert_eq!(&decode_integer(bytes), text);
    }
}

#[test]
fn integer_extremes() {
    let min = vec![0x80, 0, 0, 0, 0, 0, 0, 0];
    assert_eq!(decode_integer(&min), "-9223372036854775808");
    assert_eq!(encode_integer("-9223372036854775808").unwrap(), min);
    assert_eq!(
        encode_integer("9223372036854775807").unwrap(),
        vec![0x7F, 0xFF, 0xFF, 0xFF, 0xFF, 0xFF, 0xFF, 0xFF]
    );
    assert!(encode_integer("9223372036854775808").is_err());
    assert_eq!(encode_integer("+5").unwrap(), vec![0x05]);
    assert_eq!(decode_integer(&[]), "0");
    assert_eq!(
        decode_integer(&[1, 2, 3, 4, 5, 6, 7, 8, 9]),
        "0x010203040506070809"
    );
}

#[test]
fn truncated_element_yields_no_nodes() {
    let nodes = decode(&[0x30, 0x03, 0x02]).unwrap();
    assert!(nodes.is_empty());
    let root = decode_pem_internal("-----BEGIN TEST-----\nMAM=\n-----END TEST-----").unwrap();
    assert!(root.children.unwrap().is_empty());
    // a long-form header cut short is a truncation too
    assert!(decode(&[0x04, 0x82, 0x01]).unwrap().is_empty());
    // a lone tag byte after a complete element
    let nodes = decode(&[0x05, 0x00, 0x02]).unwrap();
    assert_eq!(nodes.len(), 1);
}

#[test]
fn decoded_elements_encode_to_their_spans() {
    let bytes = vec![
        0x30, 0x0B, 0x02, 0x01, 0x05, 0x01, 0x01, 0xFF, 0x05, 0x00, 0x06, 0x01, 0x2A, 0x02,
        0x02, 0x00, 0x80,
    ];
    let nodes = decode(&bytes).unwrap();
    assert_eq!(nodes.len(), 2);
    for node in nodes.iter() {
        let span = &bytes[node.byte_offset..node.byte_offset + node.byte_length];
        assert_eq!(encode_asn1_tree(node).unwrap(), span.to_vec());
        for kid in node.children.iter().flatten() {
            let span = &bytes[kid.byte_offset..kid.byte_offset + kid.byte_length];
            assert_eq!(encode_asn1_tree(kid).unwrap(), span.to_vec());
        }
    }
}

#[test]
fn canonical_node_encodes_to_its_span_beside_a_non_canonical_one() {
    // SEQUENCE { INTEGER 1 } followed by a BOOLEAN whose content 01 shows as
    // TRUE (which reads back as FF), and a non-minimal INTEGER
    let bytes = vec![
        0x30, 0x03, 0x02, 0x01, 0x01, 0x01, 0x01, 0x01, 0x02, 0x02, 0x00, 0x01,
    ];
    let nodes = decode(&bytes).unwrap();
    assert_eq!(nodes.len(), 3);
    assert_eq!(encode_asn1_tree(&nodes[0]).unwrap(), bytes[0..5].to_vec());
    assert_eq!(nodes[1].value.as_deref(), Some("TRUE"));
    assert_eq!(encode_asn1_tree(&nodes[1]).unwrap(), vec![0x01, 0x01, 0xFF]);
    assert_eq!(nodes[2].value.as_deref(), Some("1"));
    assert_eq!(encode_asn1_tree(&nodes[2]).unwrap(), vec![0x02, 0x01, 0x01]);
}

#[test]
fn bit_string_renders_and_parses_back() {
    let content = vec![0x06, 0x6E, 0x5D, 0xC0];
    let text = decode_bit_string(&content);
    assert_eq!(text, "011011100101110111 (unused bits: 6)");
    assert_eq!(encode_bit_string(&text).unwrap(), content);
    assert_eq!(decode_bit_string(&[0x00]), "(unused bits: 0)");
    assert_eq!(encode_bit_string("(unused bits: 0)").unwrap(), vec![0x00]);
    assert_eq!(decode_bit_string(&[]), "");
    assert_eq!(encode_bit_string("101 (unused bits: 5)").unwrap(), vec![0x05, 0xA0]);
}

#[test]
fn bit_string_legacy_form() {
    assert_eq!(
        encode_bit_string("  2 unused bits, data: AB CD").unwrap(),
        vec![0x02, 0xAB, 0xCD]
    );
    assert!(encode_bit_string("x (unused bits: 300)").is_err());
}

#[test]
fn constructed_bit_string_has_children_and_value() {
    let bytes = [0x23, 0x08, 0x03, 0x03, 0x00, 0xAB, 0xCD, 0x03, 0x02, 0x00, 0xEF];
    let nodes = decode(&bytes).unwrap();
    let node = &nodes[0];
    assert!(node.is_constructed);
    // the declared length (8) stops short of the second inner element
    assert_eq!(node.children.as_ref().unwrap().len(), 1);
    assert_eq!(
        node.value.as_deref(),
        Some("00000011000000001010101111001101000000110000001000000 (unused bits: 3)")
    );
}

#[test]
fn octet_string_renderings() {
    assert_eq!(decode_octet_string(b"hi"), "\"hi\"");
    assert_eq!(decode_octet_string(&[0x00, 0x01]), "[2 bytes] 00 01");
    let long: Vec<u8> = (0u8..20).collect();
    assert_eq!(
        decode_octet_string(&long),
        "[20 bytes] 00 01 02 03 04 05 06 07 08 09 0A 0B 0C 0D 0E 0F"
    );
    assert_eq!(encode_octet_string("[2 bytes] 00 01").unwrap(), vec![0x00, 0x01]);
    assert_eq!(encode_octet_string("hello").unwrap(), b"hello".to_vec());
}

#[test]
fn text_renderings() {
    assert_eq!(decode_utf8_string(&[0xFF]), "[Invalid UTF-8: 1 bytes]");
    assert_eq!(decode_value(19, b"AB"), "\"AB\"");
    assert_eq!(decode_value(23, &[0xC3]), "[Invalid UTCTime: 1 bytes]");
    assert_eq!(decode_value(5, &[]), "NULL");
    assert_eq!(decode_value(7, &[1, 2]), "[2 bytes]");
    assert_eq!(decode_value(1, &[]), "Invalid BOOLEAN");
    assert_eq!(decode_relative_oid(&[0x86, 0x48, 0x05]), "840.5");
    assert_eq!(decode_relative_oid(&[]), "");
    assert_eq!(get_universal_tag_name(31), "Unknown");
}

#[test]
fn value_parsers_by_tag() {
    assert_eq!(encode_value(0, "abc").unwrap(), b"abc".to_vec());
    assert_eq!(encode_value(12, "  padded  ").unwrap(), b"padded".to_vec());
    assert_eq!(encode_value(5, "ignored").unwrap(), Vec::<u8>::new());
    assert_eq!(hex_to_bytes("+F").unwrap(), vec![0x0F]);
    assert_eq!(hex_to_bytes("ABC").unwrap(), vec![0xAB]);
    assert!(hex_to_bytes("\u{e9}0").is_err());
    assert_eq!(
        encode_object_identifier("1.2.840.113549 (rsadsi)").unwrap(),
        vec![0x2A, 0x86, 0x48, 0x86, 0xF7, 0x0D]
    );
    assert!(encode_object_identifier("7.0").is_err());
}

#[test]
fn decode_errors() {
    assert_eq!(decode(&[0x30, 0x80]).unwrap_err(), DecodeError::InvalidLengthEncoding);
    assert_eq!(
        decode(&[0x30, 0x85, 0, 0, 0, 0, 1]).unwrap_err(),
        DecodeError::InvalidLengthEncoding
    );
    assert_eq!(parse_length(&[]).unwrap_err(), DecodeError::UnexpectedEnd);
    assert_eq!(parse_length(&[0x82, 0x01]).unwrap_err(), DecodeError::UnexpectedEnd);
    assert_eq!(
        decode_pem_internal("invalid pem").unwrap_err(),
        DecodeError::InvalidEnvelope
    );
    assert_eq!(pem_to_hex("invalid pem").unwrap_err(), DecodeError::InvalidEnvelope);
}

#[test]
fn nesting_limit() {
    let mut bytes = vec![0x30, 0x00];
    for _ in 0..63 {
        bytes = wrap(bytes);
    }
    assert!(decode(&bytes).is_ok());
    let deeper = wrap(bytes);
    assert_eq!(decode(&deeper).unwrap_err(), DecodeError::TooDeeplyNested);
}

#[test]
fn encode_errors() {
    let e = encode_tag("Universal", 31, false).unwrap_err();
    assert_eq!(e.kind(), EncodeErrorKind::UnsupportedType);
    let e = encode_tag("bogus", 1, false).unwrap_err();
    assert_eq!(e.kind(), EncodeErrorKind::InvalidTag);
    assert_eq!(
        e.message(),
        "Invalid tag: Unknown tag class: bogus (expected UNIVERSAL, APPLICATION, CONTEXT, PRIVATE or PEM)"
    );
    let e = encode_boolean("maybe").unwrap_err();
    assert_eq!(e.kind(), EncodeErrorKind::InvalidValue);
    assert_eq!(
        e.message(),
        "Invalid value: Invalid boolean value: maybe (expected true, false, 0xff or 0x00, in any case)"
    );
    assert_eq!(
        EncodeError::InvalidLength("x".to_string()).kind(),
        EncodeErrorKind::InvalidLength
    );
    let bad_child = Asn1Node {
        label: String::new(),
        tag_class: "Universal".to_string(),
        tag_number: 6,
        is_constructed: false,
        byte_offset: 0,
        byte_length: 0,
        length: 0,
        value: Some("1".to_string()),
        children: None,
    };
    let tree = Asn1Node {
        label: String::new(),
        tag_class: "Universal".to_string(),
        tag_number: 16,
        is_constructed: true,
        byte_offset: 0,
        byte_length: 0,
        length: 0,
        value: None,
        children: Some(vec![bad_child]),
    };
    assert_eq!(encode_asn1_tree(&tree).unwrap_err().kind(), EncodeErrorKind::InvalidValue);
}

#[test]
fn envelope_entry_points() {
    let pem = "-----BEGIN TEST-----\nMAMCAQE=\n-----END TEST-----";
    assert_eq!(pem_to_hex(pem).unwrap(), "3003020101");
    let root = decode_pem_internal(pem).unwrap();
    assert_eq!(root.label, "PEM: TEST");
    assert_eq!(root.tag_class, "PEM");
    assert_eq!((root.length, root.byte_length), (5, 5));
    assert_eq!(bytes_to_hex(&[0xAB, 0x01]), "ab01");
    let tree = decode_tree("KEY", &[0x05, 0x00]).unwrap();
    assert_eq!(tree.label, "PEM: KEY");
    assert_eq!(tree.children.unwrap()[0].value.as_deref(), Some("NULL"));
}

#[test]
fn long_content_uses_long_form_header() {
    let content = vec![0x41u8; 200];
    let node = Asn1Node {
        label: String::new(),
        tag_class: "universal".to_string(),
        tag_number: 12,
        is_constructed: false,
        byte_offset: 0,
        byte_length: 0,
        length: 0,
        value: Some("A".repeat(200)),
        children: None,
    };
    let bytes = encode_asn1_tree(&node).unwrap();
    assert_eq!(&bytes[..3], &[0x0C, 0x81, 0xC8]);
    assert_eq!(&bytes[3..], &content[..]);
    let nodes = decode(&bytes).unwrap();
    assert_eq!(nodes[0].length, 200);
    assert_eq!(nodes[0].byte_length, 203);
}

#[test]
fn class_names_fold_with_unicode_case_mapping() {
    assert_eq!(encode_tag("un\u{131}versal", 2, false).unwrap(), 0x02);
    assert_eq!(encode_tag("context", 0, true).unwrap(), 0xA0);
    assert_eq!(encode_boolean("True").unwrap(), vec![0xFF]);
}

#[test]
fn quoted_text_reads_back_as_its_content() {
    for tag in [12u8, 19, 22, 23, 24] {
        for content in [&b""[..], b"Hello, World!", b" padded ", b"0102", "caf\u{e9}".as_bytes()] {
            let text = decode_value(tag, content);
            assert_eq!(encode_value(tag as u32, &text).unwrap(), content.to_vec());
        }
    }
    for content in [&b""[..], b"hi there", b"0102"] {
        let text = decode_octet_string(content);
        assert_eq!(encode_octet_string(&text).unwrap(), content.to_vec());
    }
    let binary = vec![0x00, 0xFF, 0x10];
    assert_eq!(encode_octet_string(&decode_octet_string(&binary)).unwrap(), binary);
    assert_eq!(decode_utf8_string(&[]), "\"\"");
    assert_eq!(encode_value(12, "\"\"").unwrap(), Vec::<u8>::new());
}

#[test]
fn encode_error_messages_name_the_text() {
    let e = encode_integer("12.34").unwrap_err();
    assert_eq!(
        e.message(),
        "Invalid value: Invalid integer value: 12.34 (expected a decimal integer of 64 bits, or 0x and hexadecimal digits)"
    );
    let e = encode_object_identifier("1.2.x").unwrap_err();
    assert_eq!(
        e.message(),
        "Invalid value: Invalid OID component in: 1.2.x (expected decimal arcs of at most 32 bits)"
    );
    let e = encode_bit_string("nothing here").unwrap_err();
    assert_eq!(
        e.message(),
        "Invalid value: Invalid bit string format: nothing here (expected <bits> (unused bits: N) or N unused bits, data: <hex>)"
    );
    let e = hex_to_bytes("0G 11").unwrap_err();
    assert_eq!(
        e.message(),
        "Invalid value: Invalid hex string: 0G11 (expected pairs of hexadecimal digits)"
    );
    let e = encode_tag("Universal", 31, false).unwrap_err();
    assert_eq!(
        e.message(),
        "Unsupported type: Tag numbers above 30 are not supported: 31 (expected a tag number from 0 to 30)"
    );
}

#[test]
fn unknown_tags_keep_their_text_as_is() {
    assert_eq!(encode_value(99, "\"x\"").unwrap(), b"\"x\"".to_vec());
    assert_eq!(encode_value(7, "  [2 bytes]  ").unwrap(), b"[2 bytes]".to_vec());
    assert_eq!(encode_value(12, "\"x\"").unwrap(), b"x".to_vec());
}

#[test]
fn long_integer_reads_back_from_hex() {
    let content: Vec<u8> = (1u8..=12).collect();
    let text = decode_integer(&content);
    assert_eq!(text, "0x0102030405060708090A0B0C");
    assert_eq!(encode_integer(&text).unwrap(), content);
}

#[test]
fn every_cut_keeps_the_elements_before_it() {
    let bytes = vec![0x02, 0x01, 0x05, 0x30, 0x03, 0x01, 0x01, 0xFF, 0x04, 0x81, 0x02, 0xAB, 0xCD];
    let ends = [3usize, 8, 13];
    for k in 0..=bytes.len() {
        let nodes = decode(&bytes[..k]).unwrap();
        let expected = ends.iter().filter(|&&e| e <= k).count();
        assert_eq!(nodes.len(), expected, "cut at {}", k);
    }
}
