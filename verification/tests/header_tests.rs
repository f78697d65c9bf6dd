use dnsvisor::cursor::Cursor;
use dnsvisor::header::DnsHeader;

#[test]
fn header_from_bytes_sample() {
    let response = "60568180000100010000000003777777076578616d706c6503636f6d0000010001c00c000100010000529b00045db8d822";
    let response_bytes = hex::decode(response).unwrap();
    let mut reader = Cursor::new(response_bytes.as_slice());
    let header = DnsHeader::from_bytes(&mut reader);
    let expected = DnsHeader {
        id: 24662,
        flags: 33152,
        num_questions: 1,
        num_answers: 1,
        num_authorities: 0,
        num_additionals: 0,
    };
    let expected_end_pos = 12;
    assert_eq!(header, Ok(expected));
    assert_eq!(expected_end_pos, reader.position());
}

#[test]
fn header_to_bytes_sample() {
    let header = DnsHeader {
        id: 24662,
        flags: 33152,
        num_questions: 1,
        num_answers: 1,
        num_authorities: 0,
        num_additionals: 0,
    };
    let expected_str = "605681800001000100000000";
    let expected = hex::decode(expected_str).unwrap();
    let result = header.to_bytes().unwrap();
    assert_eq!(expected, result);
}

#[test]
fn header_round_trip() {
    let header = DnsHeader {
        id: 513,
        flags: 0x8183,
        num_questions: 2,
        num_answers: 7,
        num_authorities: 1,
        num_additionals: 3,
    };
    let bytes = header.to_bytes().unwrap();
    let mut reader = Cursor::new(bytes.as_slice());
    assert_eq!(DnsHeader::from_bytes(&mut reader), Ok(header));
}

#[test]
fn header_from_bytes_short_input() {
    let bytes = [0u8; 11];
    let mut reader = Cursor::new(&bytes[..]);
    assert!(DnsHeader::from_bytes(&mut reader).is_err());
}

#[test]
fn simple_query_header_fields() {
    let header = DnsHeader::simple_query_header();
    assert_eq!(header.flags, 0);
    assert_eq!(header.num_questions, 1);
    assert_eq!(header.num_answers, 0);
    assert_eq!(header.num_authorities, 0);
    assert_eq!(header.num_additionals, 0);
}
