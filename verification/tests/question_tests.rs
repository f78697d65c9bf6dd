use dnsvisor::cursor::Cursor;
use dnsvisor::question::DnsQuestion;
use dnsvisor::rr_fields::{Class, Type};

#[test]
fn question_from_bytes() {
    let response = "60568180000100010000000003777777076578616d706c6503636f6d0000010001c00c000100010000529b00045db8d822";
    let response_bytes = hex::decode(response).unwrap();
    let mut reader = Cursor::new(response_bytes.as_slice());
    let start_pos = 12;
    reader.set_position(start_pos);
    let header = DnsQuestion::from_bytes(&mut reader).unwrap();
    let expected = DnsQuestion {
        name: String::from("www.example.com"),
        qtype: Type::A,
        class: Class::CLASS_IN,
    };
    let expected_end_pos = 33;
    assert_eq!(header, expected);
    assert_eq!(reader.position(), expected_end_pos);
}

#[test]
fn question_to_bytes_sample() {
    let question = DnsQuestion {
        name: String::from("www.example.com"),
        qtype: Type::A,
        class: Class::CLASS_IN,
    };
    let expected_str = "03777777076578616d706c6503636f6d0000010001";
    let expected = hex::decode(expected_str).unwrap();
    let result = question.to_bytes();
    assert_eq!(result, expected);
}

#[test]
fn question_round_trip() {
    let question = DnsQuestion::new("mail.example.org", Type::MX, Class::CLASS_IN);
    let bytes = question.to_bytes();
    let mut reader = Cursor::new(bytes.as_slice());
    assert_eq!(DnsQuestion::from_bytes(&mut reader), Ok(question));
}

#[test]
fn question_unknown_type_code_rejected() {
    // name "a", then type 3 (unsupported), class 1
    let bytes = hex::decode("01610000030001").unwrap();
    let mut reader = Cursor::new(bytes.as_slice());
    let res = DnsQuestion::from_bytes(&mut reader);
    assert!(res.is_err());
}

#[test]
fn question_unknown_class_code_rejected() {
    // name "a", then type 1, class 2
    let bytes = hex::decode("01610000010002").unwrap();
    let mut reader = Cursor::new(bytes.as_slice());
    let res = DnsQuestion::from_bytes(&mut reader);
    assert!(res.is_err());
}
