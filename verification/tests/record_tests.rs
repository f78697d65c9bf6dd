use dnsvisor::cursor::Cursor;
use dnsvisor::error::DnsError;
use dnsvisor::record::{DnsRecord, Rdata, RdataMX, RdataSOA};
use dnsvisor::rr_fields::{Class, Type};

#[test]
fn test_from_bytes_record_aaaa() {
    let packet_hex = "a15e818000010001000000020377777706676f6f676c6503636f6d0000410001c00c00\
        41000100001bb6000d00010000010006026832026833c00c000100010000005200048efa5024c00c001c0001000000\
        5100102607f8b04006080d0000000000002004";
    let packet_bytes = hex::decode(packet_hex.replace(char::is_whitespace, "")).unwrap();
    let mut reader = Cursor::new(packet_bytes.as_slice());
    let record_position = 0x49;
    reader.set_position(record_position);
    let expected = Ok(DnsRecord {
        name: "www.google.com".to_string(),
        class: Class::CLASS_IN,
        ttl: 81,
        rdata: Rdata::AAAA("2607:f8b0:4006:80d::2004".to_string()),
    });
    let record = DnsRecord::from_bytes(&mut reader);
    assert_eq!(record, expected)
}

#[test]
fn test_from_bytes_record_cname() {
    let packet_hex = "8bb58180000100020000000002616106676f6f676c6503636f6d0000010001c00c00\
        0500010000009100090477777733016cc00fc02b000100010000004e00048efb286e";
    let packet_bytes = hex::decode(packet_hex.replace(char::is_whitespace, "")).unwrap();
    let mut reader = Cursor::new(packet_bytes.as_slice());
    let record_position = 0x1f;
    reader.set_position(record_position);
    let expected = Ok(DnsRecord {
        name: "aa.google.com".to_string(),
        class: Class::CLASS_IN,
        ttl: 145,
        rdata: Rdata::CNAME("www3.l.google.com".to_string()),
    });
    let record = DnsRecord::from_bytes(&mut reader);
    assert_eq!(record, expected)
}

#[test]
fn test_to_bytes_record_aaaa() {
    let expected_str = "0377777706676f6f676c6503636f6d00001c0001000000\
        5100102607f8b04006080d0000000000002004";
    let expected = hex::decode(expected_str.replace(char::is_whitespace, "")).unwrap();
    let record = DnsRecord {
        name: "www.google.com".to_string(),
        class: Class::CLASS_IN,
        ttl: 81,
        rdata: Rdata::AAAA("2607:f8b0:4006:80d::2004".to_string()),
    };
    let result = record.to_bytes().unwrap();
    assert_eq!(result, expected)
}

#[test]
fn test_data_to_bytes_aaaa() {
    let record = DnsRecord {
        name: "www.google.com".to_string(),
        class: Class::CLASS_IN,
        ttl: 81,
        rdata: Rdata::AAAA("2607:f8b0:4006:80d::2004".to_string()),
    };
    let expected_str = "2607f8b04006080d0000000000002004".to_string();
    let expected = hex::decode(expected_str).unwrap();
    let result = record.data_to_bytes().unwrap();
    assert_eq!(result, expected);
}

fn round_trip(record: DnsRecord) {
    let bytes = record.clone().to_bytes().unwrap();
    let mut reader = Cursor::new(bytes.as_slice());
    let decoded = DnsRecord::from_bytes(&mut reader).unwrap();
    assert_eq!(decoded, record);
    assert_eq!(reader.position(), bytes.len());
}

#[test]
fn record_round_trip_a() {
    round_trip(DnsRecord {
        name: "host.example.com".to_string(),
        class: Class::CLASS_IN,
        ttl: 300,
        rdata: Rdata::A("192.0.2.17".to_string()),
    });
}

#[test]
fn record_round_trip_aaaa() {
    round_trip(DnsRecord {
        name: "host.example.com".to_string(),
        class: Class::CLASS_IN,
        ttl: 300,
        rdata: Rdata::AAAA("2001:db8::8:800:200c:417a".to_string()),
    });
}

#[test]
fn record_round_trip_ns() {
    round_trip(DnsRecord {
        name: "example.com".to_string(),
        class: Class::CLASS_IN,
        ttl: 86400,
        rdata: Rdata::NS("ns1.example.com".to_string()),
    });
}

#[test]
fn record_round_trip_cname() {
    round_trip(DnsRecord {
        name: "www.example.com".to_string(),
        class: Class::CLASS_IN,
        ttl: 60,
        rdata: Rdata::CNAME("example.com".to_string()),
    });
}

#[test]
fn record_round_trip_soa() {
    round_trip(DnsRecord {
        name: "example.com".to_string(),
        class: Class::CLASS_IN,
        ttl: 3600,
        rdata: Rdata::SOA(RdataSOA {
            mname: "ns1.example.com".to_string(),
            rname: "hostmaster.example.com".to_string(),
            serial: 2024010101,
            refresh: 7200,
            retry: 900,
            expire: 1209600,
        }),
    });
}

#[test]
fn record_round_trip_mx() {
    round_trip(DnsRecord {
        name: "example.com".to_string(),
        class: Class::CLASS_IN,
        ttl: 3600,
        rdata: Rdata::MX(RdataMX {
            preference: 10,
            exchange: "mail.example.com".to_string(),
        }),
    });
}

#[test]
fn record_bad_a_string_is_encode_error() {
    let record = DnsRecord {
        name: "host.example.com".to_string(),
        class: Class::CLASS_IN,
        ttl: 300,
        rdata: Rdata::A("not-an-address".to_string()),
    };
    match record.data_to_bytes() {
        Err(DnsError::EncodeError(_)) => {}
        other => panic!("expected an encode error, got {:?}", other),
    }
}

#[test]
fn record_txt_type_is_not_implemented() {
    // name "a", type 16 (TXT), class 1, ttl 0, rdlength 0
    let bytes = hex::decode("01610000100001000000000000").unwrap();
    let mut reader = Cursor::new(bytes.as_slice());
    match DnsRecord::from_bytes(&mut reader) {
        Err(DnsError::NotImplementedError(_)) => {}
        other => panic!("expected a not-implemented error, got {:?}", other),
    }
}

#[test]
fn record_get_question_uses_rdata_type() {
    let record = DnsRecord {
        name: "example.com".to_string(),
        class: Class::CLASS_IN,
        ttl: 3600,
        rdata: Rdata::NS("ns1.example.com".to_string()),
    };
    let q = record.get_question();
    assert_eq!(q.name, "example.com");
    assert_eq!(q.qtype, Type::NS);
    assert_eq!(q.class, Class::CLASS_IN);
}
