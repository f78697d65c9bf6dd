use dnsvisor::cursor::Cursor;
use dnsvisor::error::DnsError;
use dnsvisor::util::{decode_dns_name, encode_dns_name};

#[test]
fn decode_detect_loop() {
    // input has two compressed dns pointers which create a loop
    let input = vec![0b1100_0010, 0b0000_0000, 0b1100_0000, 0b0000_0000];
    let mut reader = Cursor::new(input.as_slice());
    let expected = Err(DnsError::DecodeError(
        "Malformed DNS record: pointer loop detected".to_string(),
    ));
    let res = decode_dns_name(&mut reader);
    assert_eq!(expected, res)
}

#[test]
fn encode_example_name() {
    let expected = String::from("03777777076578616d706c6503636f6d00");
    let res = encode_dns_name("www.example.com");
    let res_hex = hex::encode(res);
    assert_eq!(res_hex, expected);
}

#[test]
fn name_round_trip_plain() {
    let bytes = encode_dns_name("www.example.com");
    let mut reader = Cursor::new(bytes.as_slice());
    let decoded = decode_dns_name(&mut reader).unwrap();
    assert_eq!(decoded, "www.example.com");
    assert_eq!(reader.position(), bytes.len());
}

#[test]
fn decode_name_with_pointer() {
    // "example.com" at offset 0; at offset 13: "www" + pointer to offset 0
    let bytes = hex::decode("076578616d706c6503636f6d0003777777c000").unwrap();
    let mut reader = Cursor::new(bytes.as_slice());
    reader.set_position(13);
    let decoded = decode_dns_name(&mut reader).unwrap();
    assert_eq!(decoded, "www.example.com");
    assert_eq!(reader.position(), bytes.len());
}

#[test]
fn decode_reserved_length_byte_rejected() {
    // 0x7f exceeds 63 and lacks the pointer mark: a reserved length byte
    let bytes = [0x7fu8, 0x61, 0x00];
    let mut reader = Cursor::new(&bytes[..]);
    match decode_dns_name(&mut reader) {
        Err(DnsError::DecodeError(_)) => {}
        other => panic!("expected a decode error, got {:?}", other),
    }
}

#[test]
fn decode_truncated_name_rejected() {
    // length byte says 5 but only 2 bytes follow
    let bytes = [0x05u8, 0x61, 0x62];
    let mut reader = Cursor::new(&bytes[..]);
    assert!(decode_dns_name(&mut reader).is_err());
}

#[test]
fn decode_empty_buffer_rejected() {
    let bytes: [u8; 0] = [];
    let mut reader = Cursor::new(&bytes[..]);
    assert!(decode_dns_name(&mut reader).is_err());
}

#[test]
fn decode_root_name_is_empty_string() {
    let bytes = [0x00u8];
    let mut reader = Cursor::new(&bytes[..]);
    assert_eq!(decode_dns_name(&mut reader), Ok(String::new()));
    assert_eq!(reader.position(), 1);
}

#[test]
fn decode_three_pointer_cycle_is_a_loop() {
    // three pointers chasing each other: 0 -> 2 -> 4 -> 0
    let bytes = [0xc0u8, 0x02, 0xc0, 0x04, 0xc0, 0x00];
    let mut reader = Cursor::new(&bytes[..]);
    let expected = Err(DnsError::DecodeError(
        "Malformed DNS record: pointer loop detected".to_string(),
    ));
    assert_eq!(decode_dns_name(&mut reader), expected);
}

#[test]
fn decode_self_pointer_is_a_loop() {
    // a pointer whose target is the pointer itself
    let bytes = [0xc0u8, 0x00];
    let mut reader = Cursor::new(&bytes[..]);
    let expected = Err(DnsError::DecodeError(
        "Malformed DNS record: pointer loop detected".to_string(),
    ));
    assert_eq!(decode_dns_name(&mut reader), expected);
}
