use dnsvisor::error::DnsError;
use dnsvisor::header::DnsHeader;
use dnsvisor::packet::DnsPacket;
use dnsvisor::question::DnsQuestion;
use dnsvisor::record::{DnsRecord, Rdata};
use dnsvisor::rr_fields::{Class, Type};
use dnsvisor::util::encode_dns_name;

#[test]
fn test_dns_response_type_a() {
    let packet = "528a818000010001000000000a636f6d706c6574696f6e06616d617a6f6e03636f\
        6d0000010001c00c000100010000002500042cd78e8b";
    let packet_bytes = hex::decode(packet.replace(char::is_whitespace, "")).unwrap();
    let expected = DnsPacket {
        header: DnsHeader {
            id: 0x528a,
            flags: 0x8180,
            num_questions: 1,
            num_answers: 1,
            num_authorities: 0,
            num_additionals: 0,
        },
        authorities: vec![],
        additionals: vec![],
        questions: vec![DnsQuestion {
            name: "completion.amazon.com".to_string(),
            qtype: Type::A,
            class: Class::CLASS_IN,
        }],
        answers: vec![DnsRecord {
            name: "completion.amazon.com".to_string(),
            class: Class::CLASS_IN,
            ttl: 37,
            rdata: Rdata::A("44.215.142.139".to_string()),
        }],
    };
    let decoded = DnsPacket::from_bytes(&packet_bytes);
    assert_eq!(decoded, Ok(expected));
}

#[test]
fn test_dns_to_bytes_a() {
    let expected_str = "528a818000010001000000000a636f6d706c6574696f6e06616d617a6f6e03636f\
        6d00000100010a636f6d706c6574696f6e06616d617a6f6e03636f6d00000100010000002500042cd78e8b";
    let expected = hex::decode(expected_str.replace(char::is_whitespace, "")).unwrap();
    let packet = DnsPacket {
        header: DnsHeader {
            id: 0x528a,
            flags: 0x8180,
            num_questions: 1,
            num_answers: 1,
            num_authorities: 0,
            num_additionals: 0,
        },
        authorities: vec![],
        additionals: vec![],
        questions: vec![DnsQuestion {
            name: "completion.amazon.com".to_string(),
            qtype: Type::A,
            class: Class::CLASS_IN,
        }],
        answers: vec![DnsRecord {
            name: "completion.amazon.com".to_string(),
            class: Class::CLASS_IN,
            ttl: 37,
            rdata: Rdata::A("44.215.142.139".to_string()),
        }],
    };
    let result: Vec<u8> = packet.to_bytes().unwrap();
    assert_eq!(result, expected);
}

#[test]
fn test_get_answer() {
    let record = DnsRecord {
        name: "encrypted-tbn0.gstatic.com".to_string(),
        class: Class::CLASS_IN,
        ttl: 96,
        rdata: Rdata::A("142.251.40.174".to_string()),
    };
    let packet = DnsPacket {
        header: DnsHeader {
            id: 0,
            flags: 0,
            num_questions: 0,
            num_answers: 0,
            num_authorities: 0,
            num_additionals: 0,
        },
        authorities: vec![],
        additionals: vec![],
        questions: vec![],
        answers: vec![record.clone()],
    };

    let result = packet.get_answer();
    let expected = Some(&record);
    assert_eq!(result, expected);
}

#[test]
fn query_example() {
    let expected =
        String::from("3c5f0000000100000000000003777777076578616d706c6503636f6d0000010001");
    let question = DnsQuestion {
        name: "www.example.com".to_string(),
        qtype: Type::A,
        class: Class::CLASS_IN,
    };
    let res = DnsPacket::build_query(&question).unwrap();
    let res_hex = hex::encode(res);
    assert_eq!(res_hex[4..], expected[4..]);
}

#[test]
fn test_encode_dns_name() {
    let expected = String::from("03777777076578616d706c6503636f6d00");
    let res = encode_dns_name("www.example.com");
    let res_hex = hex::encode(res);
    assert_eq!(res_hex, expected);
}

#[test]
fn packet_round_trip() {
    let packet = DnsPacket {
        header: DnsHeader {
            id: 77,
            flags: 0x8180,
            num_questions: 1,
            num_answers: 2,
            num_authorities: 0,
            num_additionals: 1,
        },
        questions: vec![DnsQuestion::new("example.com", Type::A, Class::CLASS_IN)],
        answers: vec![
            DnsRecord {
                name: "example.com".to_string(),
                class: Class::CLASS_IN,
                ttl: 60,
                rdata: Rdata::CNAME("alias.example.com".to_string()),
            },
            DnsRecord {
                name: "alias.example.com".to_string(),
                class: Class::CLASS_IN,
                ttl: 60,
                rdata: Rdata::A("192.0.2.7".to_string()),
            },
        ],
        authorities: vec![],
        additionals: vec![DnsRecord {
            name: "ns1.example.com".to_string(),
            class: Class::CLASS_IN,
            ttl: 600,
            rdata: Rdata::A("192.0.2.53".to_string()),
        }],
    };
    let bytes = packet.clone().to_bytes().unwrap();
    assert_eq!(DnsPacket::from_bytes(&bytes), Ok(packet));
}

#[test]
fn get_nameserver_helpers_pick_first() {
    let packet = DnsPacket {
        header: DnsHeader {
            id: 0,
            flags: 0,
            num_questions: 0,
            num_answers: 0,
            num_authorities: 2,
            num_additionals: 2,
        },
        questions: vec![],
        answers: vec![],
        authorities: vec![
            DnsRecord {
                name: "example.com".to_string(),
                class: Class::CLASS_IN,
                ttl: 600,
                rdata: Rdata::NS("ns1.example.com".to_string()),
            },
            DnsRecord {
                name: "example.com".to_string(),
                class: Class::CLASS_IN,
                ttl: 600,
                rdata: Rdata::NS("ns2.example.com".to_string()),
            },
        ],
        additionals: vec![
            DnsRecord {
                name: "ns1.example.com".to_string(),
                class: Class::CLASS_IN,
                ttl: 600,
                rdata: Rdata::A("192.0.2.53".to_string()),
            },
            DnsRecord {
                name: "ns2.example.com".to_string(),
                class: Class::CLASS_IN,
                ttl: 600,
                rdata: Rdata::A("192.0.2.54".to_string()),
            },
        ],
    };
    assert_eq!(packet.get_nameserver(), Some("ns1.example.com"));
    assert_eq!(packet.get_nameserver_ip(), Some("192.0.2.53"));
}

#[test]
fn make_error_response_not_implemented_maps_to_rcode_4() {
    let request = DnsPacket {
        header: DnsHeader {
            id: 4242,
            flags: 0,
            num_questions: 1,
            num_answers: 0,
            num_authorities: 0,
            num_additionals: 0,
        },
        questions: vec![DnsQuestion::new("example.com", Type::TXT, Class::CLASS_IN)],
        answers: vec![],
        authorities: vec![],
        additionals: vec![],
    };
    let err = DnsError::NotImplementedError("Decoding data for type TXT not supported yet".to_string());
    let response = request.clone().make_error_response(err);
    assert_eq!(response.header.id, 4242);
    // query-response bit set
    assert_eq!(response.header.flags & 0x8000, 0x8000);
    // RCODE 4: not implemented
    assert_eq!(response.header.flags & 0x000f, 4);
    assert_eq!(response.questions, request.questions);
    assert!(response.answers.is_empty());
    assert!(response.authorities.is_empty());
    assert!(response.additionals.is_empty());
}

#[test]
fn make_error_response_masks_request_rcode_bits() {
    // a decodable request whose flags word already carries RCODE bits must
    // still get a response with exactly the error's RCODE
    let request = DnsPacket {
        header: DnsHeader {
            id: 9,
            flags: 0x0101,
            num_questions: 1,
            num_answers: 2,
            num_authorities: 3,
            num_additionals: 4,
        },
        questions: vec![DnsQuestion::new("example.com", Type::TXT, Class::CLASS_IN)],
        answers: vec![],
        authorities: vec![],
        additionals: vec![],
    };
    let not_impl = DnsError::NotImplementedError("Decoding data for type TXT not supported yet".to_string());
    let response = request.clone().make_error_response(not_impl);
    assert_eq!(response.header.flags & 0x000f, 4);
    assert_eq!(response.header.flags & 0x8000, 0x8000);
    // the record counters are zeroed along with the sections
    assert_eq!(response.header.num_answers, 0);
    assert_eq!(response.header.num_authorities, 0);
    assert_eq!(response.header.num_additionals, 0);
    let serv_fail = DnsError::ResolveError("Unexpected response".to_string());
    let response2 = request.make_error_response(serv_fail);
    assert_eq!(response2.header.flags & 0x000f, 2);
}

#[test]
fn make_error_response_other_errors_map_to_rcode_2() {
    let request = DnsPacket {
        header: DnsHeader {
            id: 7,
            flags: 0,
            num_questions: 0,
            num_answers: 0,
            num_authorities: 0,
            num_additionals: 0,
        },
        questions: vec![],
        answers: vec![],
        authorities: vec![],
        additionals: vec![],
    };
    let err = DnsError::NetworkError("Failed sending query".to_string());
    let response = request.make_error_response(err);
    assert_eq!(response.header.flags & 0x8000, 0x8000);
    assert_eq!(response.header.flags & 0x000f, 2);
}
