use asn1_web_decoder::{
    decode_bit_string, decode_boolean, decode_integer, decode_oid, decode_pem_internal,
    decode_utf8_string, get_universal_tag_name, parse_length, Asn1Node,
};

fn kids(n: &Asn1Node) -> &Vec<Asn1Node> {
    n.children.as_ref().unwrap()
}

#[test]
fn test_decode_integer_small() {
    let data = vec![0x01];
    let result = decode_integer(&data);
    assert_eq!(result, "1");
}

#[test]
fn test_decode_integer_negative() {
    let data = vec![0xFF];
    let result = decode_integer(&data);
    assert_eq!(result, "-1");
}

#[test]
fn test_decode_integer_large() {
    let data = vec![0x01, 0x02, 0x03, 0x04, 0x05, 0x06, 0x07, 0x08, 0x09];
    let result = decode_integer(&data);
    assert!(result.starts_with("0x"));
}

#[test]
fn test_decode_boolean_false() {
    let data = vec![0x00];
    assert_eq!(decode_boolean(&data), "FALSE");
}

#[test]
fn test_decode_boolean_true() {
    let data = vec![0xFF];
    assert_eq!(decode_boolean(&data), "TRUE");
}

#[test]
fn test_decode_oid() {
    let data = vec![0x2A, 0x86, 0x48, 0x86, 0xF7, 0x0D];
    let result = decode_oid(&data);
    assert_eq!(result, "1.2.840.113549");
}

#[test]
fn test_decode_bit_string() {
    let data = vec![0x01, 0xAA];
    let result = decode_bit_string(&data);
    assert!(result.contains("1010101"));
    assert!(result.contains("unused bits: 1"));
}

#[test]
fn test_decode_utf8_string() {
    let data = b"Hello, World!";
    let result = decode_utf8_string(data);
    assert_eq!(result, "\"Hello, World!\"");
}

#[test]
fn test_parse_length_short() {
    let data = vec![0x05];
    let (length, bytes_used) = parse_length(&data).unwrap();
    assert_eq!(length, 5);
    assert_eq!(bytes_used, 1);
}

#[test]
fn test_parse_length_long() {
    let data = vec![0x81, 0xFF];
    let (length, bytes_used) = parse_length(&data).unwrap();
    assert_eq!(length, 255);
    assert_eq!(bytes_used, 2);
}

#[test]
fn test_get_universal_tag_name() {
    assert_eq!(get_universal_tag_name(2), "INTEGER");
    assert_eq!(get_universal_tag_name(16), "SEQUENCE");
    assert_eq!(get_universal_tag_name(6), "OBJECT IDENTIFIER");
}

#[test]
fn test_decode_sequence() {
    let pem_str = "-----BEGIN TEST-----\nMAMCAQE=\n-----END TEST-----";
    let result = decode_pem_internal(pem_str);
    assert!(result.is_ok());
    let parsed = result.unwrap();
    let sequence = &kids(&parsed)[0];
    assert!(sequence.label.contains("SEQUENCE"));
    assert_eq!(sequence.tag_number, 16);
    assert_eq!(sequence.is_constructed, true);
    let integer = &kids(sequence)[0];
    assert!(integer.label.contains("INTEGER"));
    assert_eq!(integer.value.as_deref().unwrap(), "1");
}

#[test]
fn test_decode_oid_in_sequence() {
    let pem_str = "-----BEGIN TEST-----\nMAgGBiqGSIb3DQ==\n-----END TEST-----";
    let result = decode_pem_internal(pem_str);
    assert!(result.is_ok());
    let parsed = result.unwrap();
    let oid = &kids(&kids(&parsed)[0])[0];
    assert!(oid.label.contains("OBJECT IDENTIFIER"));
    assert_eq!(oid.value.as_deref().unwrap(), "1.2.840.113549");
}

#[test]
fn test_decode_nested_sequence() {
    let pem_str = "-----BEGIN TEST-----\nMAUwAwIBAQ==\n-----END TEST-----";
    let result = decode_pem_internal(pem_str);
    assert!(result.is_ok());
    let parsed = result.unwrap();
    let outer = &kids(&parsed)[0];
    assert!(outer.is_constructed);
    let inner = &kids(outer)[0];
    assert!(inner.is_constructed);
    assert_eq!(kids(inner).len(), 1);
}

#[test]
fn test_decode_context_specific_tag() {
    let pem_str = "-----BEGIN TEST-----\noAMCAQU=\n-----END TEST-----";
    let result = decode_pem_internal(pem_str);
    assert!(result.is_ok());
    let parsed = result.unwrap();
    let node = &kids(&parsed)[0];
    assert_eq!(node.tag_class, "CONTEXT");
    assert_eq!(node.tag_number, 0);
    assert_eq!(node.is_constructed, true);
}

#[test]
fn test_decode_application_tag() {
    let pem_str = "-----BEGIN TEST-----\nZQMCAQE=\n-----END TEST-----";
    let result = decode_pem_internal(pem_str);
    assert!(result.is_ok());
    let parsed = result.unwrap();
    let node = &kids(&parsed)[0];
    assert_eq!(node.tag_class, "APPLICATION");
    assert_eq!(node.tag_number, 5);
}

#[test]
fn test_decode_private_tag() {
    let pem_str = "-----BEGIN TEST-----\n6gMCAQE=\n-----END TEST-----";
    let result = decode_pem_internal(pem_str);
    assert!(result.is_ok());
    let parsed = result.unwrap();
    let node = &kids(&parsed)[0];
    assert_eq!(node.tag_class, "PRIVATE");
    assert_eq!(node.tag_number, 10);
}

#[test]
fn test_byte_offsets() {
    let pem_str = "-----BEGIN TEST-----\nMAMCAQE=\n-----END TEST-----";
    let result = decode_pem_internal(pem_str);
    assert!(result.is_ok());
    let parsed = result.unwrap();
    let sequence = &kids(&parsed)[0];
    assert_eq!(sequence.byte_offset, 0);
    assert_eq!(sequence.byte_length, 5);
    let integer = &kids(sequence)[0];
    assert_eq!(integer.byte_offset, 2);
    assert_eq!(integer.byte_length, 3);
}

#[test]
fn test_decode_pem_internal() {
    let pem_str = "-----BEGIN TEST-----\nMAMCAQE=\n-----END TEST-----";
    let result = decode_pem_internal(pem_str);
    assert!(result.is_ok());
    let parsed = result.unwrap();
    assert!(parsed.children.is_some());
    let children = kids(&parsed);
    assert!(children.len() > 0, "Should have at least one child node");
    let first_child = &children[0];
    assert!(first_child.label.contains("SEQUENCE"));
}

#[test]
fn test_decode_pem_internal_error() {
    let result = decode_pem_internal("invalid pem");
    assert!(result.is_err());
}

#[test]
fn test_decode_set() {
    let pem_str = "-----BEGIN TEST-----\nMQYCAQECAQI=\n-----END TEST-----";
    let result = decode_pem_internal(pem_str);
    assert!(result.is_ok());
    let parsed = result.unwrap();
    let set = &kids(&parsed)[0];
    assert!(set.label.contains("SET"));
    assert_eq!(set.tag_number, 17);
}

#[test]
fn test_malformed_der_truncated() {
    let pem_str = "-----BEGIN TEST-----\nMAM=\n-----END TEST-----";
    let result = decode_pem_internal(pem_str);
    assert!(result.is_ok() || result.is_err());
}

#[test]
fn test_long_length_encoding() {
    let pem_str = "-----BEGIN TEST-----\nMIEDAgEB\n-----END TEST-----";
    let result = decode_pem_internal(pem_str);
    assert!(result.is_ok());
    let parsed = result.unwrap();
    let sequence = &kids(&parsed)[0];
    assert_eq!(sequence.length, 3);
}

#[test]
fn test_bit_string_value_primitive() {
    let pem_str = "-----BEGIN TEST-----\nAwQGbl3A\n-----END TEST-----";
    let result = decode_pem_internal(pem_str);
    assert!(result.is_ok(), "Failed to decode PEM: {:?}", result.err());
    let parsed = result.unwrap();
    let bit_string = &kids(&parsed)[0];
    assert_eq!(bit_string.label, "BIT STRING (Tag 3)");
    let value = bit_string.value.as_deref();
    assert!(value.is_some(), "BIT STRING value should be present");
    assert!(value.unwrap().contains("unused bits"), "Value should mention unused bits");
}

#[test]
fn test_bit_string_value_constructed() {
    let pem_str = "-----BEGIN TEST-----\nIwgDAwCrzQMCAO8=\n-----END TEST-----";
    let result = decode_pem_internal(pem_str);
    assert!(result.is_ok(), "Failed to decode PEM: {:?}", result.err());
    let parsed = result.unwrap();
    let bit_string = &kids(&parsed)[0];
    let value = bit_string.value.as_deref();
    assert!(value.is_some(), "Constructed BIT STRING should also have a value");
    println!("Constructed BIT STRING value: {:?}", value);
}

#[test]
fn test_decode_bit_string_function() {
    let data = vec![0x00, 0x30, 0x82, 0x01, 0x22];
    let result = decode_bit_string(&data);
    assert_eq!(result, "00110000100000100000000100100010 (unused bits: 0)");
}
