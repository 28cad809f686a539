use asn1_web_decoder::{
    encode_asn1_tree, encode_bit_string, encode_boolean, encode_integer, encode_length,
    encode_null, encode_object_identifier, encode_octet_string, encode_oid_component,
    encode_string, encode_tag, encode_value, hex_to_bytes, Asn1Node,
};

fn leaf(label: &str, tag_number: u32, length: usize, value: &str) -> Asn1Node {
    Asn1Node {
        label: label.to_string(),
        tag_class: "Universal".to_string(),
        tag_number,
        is_constructed: false,
        byte_offset: 0,
        byte_length: 0,
        length,
        value: Some(value.to_string()),
        children: None,
    }
}

#[test]
fn test_encode_tag_universal() {
    assert_eq!(encode_tag("Universal", 2, false).unwrap(), 0x02);
    assert_eq!(encode_tag("Universal", 16, true).unwrap(), 0x30);
    assert_eq!(encode_tag("Universal", 4, false).unwrap(), 0x04);
    assert_eq!(encode_tag("Universal", 3, false).unwrap(), 0x03);
    assert_eq!(encode_tag("Universal", 6, false).unwrap(), 0x06);
    assert_eq!(encode_tag("UNIVERSAL", 2, false).unwrap(), 0x02);
}

#[test]
fn test_encode_tag_context() {
    assert_eq!(encode_tag("Context", 0, true).unwrap(), 0xA0);
    assert_eq!(encode_tag("Context", 1, true).unwrap(), 0xA1);
    assert_eq!(encode_tag("Context", 3, false).unwrap(), 0x83);
    assert_eq!(encode_tag("CONTEXT", 0, true).unwrap(), 0xA0);
}

#[test]
fn test_encode_tag_application() {
    assert_eq!(encode_tag("Application", 0, false).unwrap(), 0x40);
    assert_eq!(encode_tag("Application", 5, true).unwrap(), 0x65);
}

#[test]
fn test_encode_tag_private() {
    assert_eq!(encode_tag("Private", 0, false).unwrap(), 0xC0);
    assert_eq!(encode_tag("Private", 10, true).unwrap(), 0xEA);
}

#[test]
fn test_encode_tag_pem_as_universal() {
    assert_eq!(encode_tag("PEM", 16, true).unwrap(), 0x30);
}

#[test]
fn test_encode_tag_invalid() {
    assert!(encode_tag("Unknown", 2, false).is_err());
}

#[test]
fn test_encode_length_short_form() {
    assert_eq!(encode_length(0).unwrap(), vec![0x00]);
    assert_eq!(encode_length(1).unwrap(), vec![0x01]);
    assert_eq!(encode_length(5).unwrap(), vec![0x05]);
    assert_eq!(encode_length(127).unwrap(), vec![0x7F]);
}

#[test]
fn test_encode_length_long_form() {
    assert_eq!(encode_length(128).unwrap(), vec![0x81, 0x80]);
    assert_eq!(encode_length(255).unwrap(), vec![0x81, 0xFF]);
    assert_eq!(encode_length(256).unwrap(), vec![0x82, 0x01, 0x00]);
    assert_eq!(encode_length(1024).unwrap(), vec![0x82, 0x04, 0x00]);
    assert_eq!(encode_length(65535).unwrap(), vec![0x82, 0xFF, 0xFF]);
}

#[test]
fn test_encode_boolean() {
    assert_eq!(encode_boolean("true").unwrap(), vec![0xFF]);
    assert_eq!(encode_boolean("TRUE").unwrap(), vec![0xFF]);
    assert_eq!(encode_boolean("false").unwrap(), vec![0x00]);
    assert_eq!(encode_boolean("FALSE").unwrap(), vec![0x00]);
    assert_eq!(encode_boolean("0xff").unwrap(), vec![0xFF]);
    assert_eq!(encode_boolean("0x00").unwrap(), vec![0x00]);
    assert!(encode_boolean("invalid").is_err());
}

#[test]
fn test_encode_integer_positive() {
    assert_eq!(encode_integer("0").unwrap(), vec![0x00]);
    assert_eq!(encode_integer("1").unwrap(), vec![0x01]);
    assert_eq!(encode_integer("127").unwrap(), vec![0x7F]);
    assert_eq!(encode_integer("128").unwrap(), vec![0x00, 0x80]);
    assert_eq!(encode_integer("255").unwrap(), vec![0x00, 0xFF]);
    assert_eq!(encode_integer("256").unwrap(), vec![0x01, 0x00]);
    assert_eq!(encode_integer("32767").unwrap(), vec![0x7F, 0xFF]);
    assert_eq!(encode_integer("32768").unwrap(), vec![0x00, 0x80, 0x00]);
}

#[test]
fn test_encode_integer_negative() {
    assert_eq!(encode_integer("-1").unwrap(), vec![0xFF]);
    assert_eq!(encode_integer("-128").unwrap(), vec![0x80]);
    assert_eq!(encode_integer("-129").unwrap(), vec![0xFF, 0x7F]);
    assert_eq!(encode_integer("-256").unwrap(), vec![0xFF, 0x00]);
}

#[test]
fn test_encode_integer_hex() {
    assert_eq!(encode_integer("0x00").unwrap(), vec![0x00]);
    assert_eq!(encode_integer("0xFF").unwrap(), vec![0xFF]);
    assert_eq!(encode_integer("0x0102").unwrap(), vec![0x01, 0x02]);
}

#[test]
fn test_encode_integer_invalid() {
    assert!(encode_integer("not_a_number").is_err());
    assert!(encode_integer("12.34").is_err());
}

#[test]
fn test_encode_bit_string() {
    assert_eq!(
        encode_bit_string("0 unused bits, data: 0102").unwrap(),
        vec![0x00, 0x01, 0x02]
    );
    assert_eq!(
        encode_bit_string("4 unused bits, data: F0").unwrap(),
        vec![0x04, 0xF0]
    );
    assert_eq!(
        encode_bit_string("0 unused bits, data: 010203040506").unwrap(),
        vec![0x00, 0x01, 0x02, 0x03, 0x04, 0x05, 0x06]
    );
}

#[test]
fn test_encode_bit_string_invalid() {
    assert!(encode_bit_string("invalid format").is_err());
    assert!(encode_bit_string("data: FF").is_err());
}

#[test]
fn test_encode_octet_string() {
    assert_eq!(encode_octet_string("0102").unwrap(), vec![0x01, 0x02]);
    assert_eq!(encode_octet_string("FF").unwrap(), vec![0xFF]);
    assert_eq!(encode_octet_string("00").unwrap(), vec![0x00]);
    assert_eq!(
        encode_octet_string("010203040506070809").unwrap(),
        vec![0x01, 0x02, 0x03, 0x04, 0x05, 0x06, 0x07, 0x08, 0x09]
    );
}

#[test]
fn test_encode_octet_string_with_spaces() {
    assert_eq!(encode_octet_string("01 02 03").unwrap(), vec![0x01, 0x02, 0x03]);
    assert_eq!(encode_octet_string("01:02:03").unwrap(), vec![0x01, 0x02, 0x03]);
}

#[test]
fn test_encode_null() {
    assert_eq!(encode_null("").unwrap(), Vec::<u8>::new());
    assert_eq!(encode_null("anything").unwrap(), Vec::<u8>::new());
}

#[test]
fn test_encode_oid_standard() {
    assert_eq!(
        encode_object_identifier("1.2.840.113549").unwrap(),
        vec![0x2A, 0x86, 0x48, 0x86, 0xF7, 0x0D]
    );
    assert_eq!(
        encode_object_identifier("2.5.4.3").unwrap(),
        vec![0x55, 0x04, 0x03]
    );
}

#[test]
fn test_encode_oid_with_large_numbers() {
    assert_eq!(
        encode_object_identifier("1.2.128").unwrap(),
        vec![0x2A, 0x81, 0x00]
    );
    assert_eq!(
        encode_object_identifier("1.2.16384").unwrap(),
        vec![0x2A, 0x81, 0x80, 0x00]
    );
}

#[test]
fn test_encode_oid_invalid() {
    assert!(encode_object_identifier("1").is_err());
    assert!(encode_object_identifier("invalid.oid").is_err());
    assert!(encode_object_identifier("1.2.abc").is_err());
}

#[test]
fn test_encode_string() {
    assert_eq!(encode_string("test").unwrap(), vec![0x74, 0x65, 0x73, 0x74]);
    assert_eq!(encode_string("").unwrap(), Vec::<u8>::new());
    assert_eq!(encode_string("hello world").unwrap(), b"hello world".to_vec());
}

#[test]
fn test_hex_to_bytes() {
    assert_eq!(hex_to_bytes("0102").unwrap(), vec![0x01, 0x02]);
    assert_eq!(hex_to_bytes("FF").unwrap(), vec![0xFF]);
    assert_eq!(hex_to_bytes("00").unwrap(), vec![0x00]);
    assert_eq!(hex_to_bytes("01 02 03").unwrap(), vec![0x01, 0x02, 0x03]);
    assert_eq!(hex_to_bytes("01:02:03").unwrap(), vec![0x01, 0x02, 0x03]);
}

#[test]
fn test_hex_to_bytes_invalid() {
    assert!(hex_to_bytes("0G").is_err());
    assert!(hex_to_bytes("XYZ").is_err());
}

#[test]
fn test_encode_asn1_simple_integer() {
    let node = leaf("INTEGER", 2, 1, "42");
    let result = encode_asn1_tree(&node).unwrap();
    assert_eq!(result, vec![0x02, 0x01, 0x2A]);
}

#[test]
fn test_encode_asn1_sequence() {
    let child1 = leaf("INTEGER", 2, 1, "1");
    let child2 = leaf("INTEGER", 2, 1, "2");
    let sequence = Asn1Node {
        label: "SEQUENCE".to_string(),
        tag_class: "Universal".to_string(),
        tag_number: 16,
        is_constructed: true,
        byte_offset: 0,
        byte_length: 0,
        length: 6,
        value: None,
        children: Some(vec![child1, child2]),
    };
    let result = encode_asn1_tree(&sequence).unwrap();
    assert_eq!(result, vec![0x30, 0x06, 0x02, 0x01, 0x01, 0x02, 0x01, 0x02]);
}

#[test]
fn test_encode_asn1_boolean() {
    let node = leaf("BOOLEAN", 1, 1, "true");
    let result = encode_asn1_tree(&node).unwrap();
    assert_eq!(result, vec![0x01, 0x01, 0xFF]);
}

#[test]
fn test_encode_asn1_null() {
    let node = leaf("NULL", 5, 0, "");
    let result = encode_asn1_tree(&node).unwrap();
    assert_eq!(result, vec![0x05, 0x00]);
}

#[test]
fn test_encode_asn1_context_specific() {
    let node = Asn1Node {
        label: "[0]".to_string(),
        tag_class: "Context".to_string(),
        tag_number: 0,
        is_constructed: true,
        byte_offset: 0,
        byte_length: 0,
        length: 3,
        value: None,
        children: Some(vec![leaf("INTEGER", 2, 1, "5")]),
    };
    let result = encode_asn1_tree(&node).unwrap();
    assert_eq!(result, vec![0xA0, 0x03, 0x02, 0x01, 0x05]);
}

#[test]
fn test_encode_oid_component() {
    assert_eq!(encode_oid_component(0), vec![0x00]);
    assert_eq!(encode_oid_component(127), vec![0x7F]);
    assert_eq!(encode_oid_component(128), vec![0x81, 0x00]);
    assert_eq!(encode_oid_component(16383), vec![0xFF, 0x7F]);
    assert_eq!(encode_oid_component(16384), vec![0x81, 0x80, 0x00]);
}

#[test]
fn test_encode_value_with_tag_number() {
    let result = encode_value(12, "test").unwrap();
    assert_eq!(result, b"test".to_vec());
    let result = encode_value(19, "hello").unwrap();
    assert_eq!(result, b"hello".to_vec());
    let result = encode_value(99, "0x0102").unwrap();
    assert_eq!(result, vec![0x01, 0x02]);
}

#[test]
fn test_round_trip_encoding() {
    let node = Asn1Node {
        label: "SEQUENCE".to_string(),
        tag_class: "Universal".to_string(),
        tag_number: 16,
        is_constructed: true,
        byte_offset: 0,
        byte_length: 0,
        length: 0,
        value: None,
        children: Some(vec![
            leaf("INTEGER", 2, 1, "100"),
            leaf("OCTET STRING", 4, 3, "010203"),
        ]),
    };
    let result = encode_asn1_tree(&node).unwrap();
    assert!(result.len() > 0);
    assert_eq!(result[0], 0x30);
    assert!(result.contains(&0x02));
    assert!(result.contains(&0x04));
}
