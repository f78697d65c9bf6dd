use dnsvisor::error::DnsError;
use dnsvisor::header::DnsHeader;
use dnsvisor::packet::DnsPacket;
use dnsvisor::question::DnsQuestion;
use dnsvisor::record::{DnsRecord, Rdata};
use dnsvisor::resolver::{ResolveStep, Resolver};
use dnsvisor::rr_fields::{Class, Type};

fn request_for(name: &str, qtype: Type) -> DnsPacket {
    DnsPacket {
        header: DnsHeader {
            id: 3131,
            flags: 0,
            num_questions: 1,
            num_answers: 0,
            num_authorities: 0,
            num_additionals: 0,
        },
        questions: vec![DnsQuestion::new(name, qtype, Class::CLASS_IN)],
        answers: vec![],
        authorities: vec![],
        additionals: vec![],
    }
}

fn empty_response(id: u16) -> DnsPacket {
    DnsPacket {
        header: DnsHeader {
            id,
            flags: 0x8000,
            num_questions: 0,
            num_answers: 0,
            num_authorities: 0,
            num_additionals: 0,
        },
        questions: vec![],
        answers: vec![],
        authorities: vec![],
        additionals: vec![],
    }
}

#[test]
fn blocklisted_domain_answered_locally() {
    let mut resolver = Resolver::new(vec!["ads.example".to_string()]);
    let request = request_for("ads.example", Type::A);
    match resolver.resolve_start(&request, 16, 0) {
        Ok(ResolveStep::Done(response)) => {
            assert_eq!(response.header.id, 3131);
            assert_eq!(response.header.flags & 0x8000, 0x8000);
            assert_eq!(response.header.num_answers, 1);
            assert_eq!(response.answers.len(), 1);
            let answer = &response.answers[0];
            assert_eq!(answer.name, "ads.example");
            assert_eq!(answer.ttl, 43200);
            assert_eq!(answer.rdata, Rdata::A("0.0.0.0".to_string()));
            assert_eq!(response.questions, request.questions);
        }
        other => panic!("expected an immediate response, got {:?}", step_name(&other)),
    }
}

#[test]
fn cached_answer_needs_no_upstream_query() {
    let mut resolver = Resolver::new(vec![]);
    let record = DnsRecord {
        name: "example.com".to_string(),
        class: Class::CLASS_IN,
        ttl: 300,
        rdata: Rdata::A("93.184.216.34".to_string()),
    };
    resolver.cache.add(&record, 100).unwrap();
    let request = request_for("example.com", Type::A);
    match resolver.resolve_start(&request, 16, 120) {
        Ok(ResolveStep::Done(response)) => {
            assert_eq!(response.header.id, 3131);
            assert_eq!(response.answers, vec![record]);
            assert_eq!(response.questions, request.questions);
        }
        other => panic!("expected a cache hit, got {:?}", step_name(&other)),
    }
}

#[test]
fn uncached_name_queries_the_root_first() {
    let mut resolver = Resolver::new(vec![]);
    let request = request_for("example.com", Type::A);
    match resolver.resolve_start(&request, 16, 0) {
        Ok(ResolveStep::SendQuery(_session, nameserver, question)) => {
            assert_eq!(nameserver, "198.41.0.4");
            assert_eq!(question.name, "example.com");
            assert_eq!(question.qtype, Type::A);
            assert_eq!(question.class, Class::CLASS_IN);
        }
        other => panic!("expected a query to the root, got {:?}", step_name(&other)),
    }
}

#[test]
fn request_without_question_is_rejected() {
    let mut resolver = Resolver::new(vec![]);
    let mut request = request_for("example.com", Type::A);
    request.questions.clear();
    match resolver.resolve_start(&request, 16, 0) {
        Err(DnsError::ResolveError(_)) => {}
        other => panic!("expected a resolve error, got {:?}", step_name(&other)),
    }
}

#[test]
fn request_with_two_questions_is_rejected() {
    let mut resolver = Resolver::new(vec![]);
    let mut request = request_for("example.com", Type::A);
    request
        .questions
        .push(DnsQuestion::new("other.example.com", Type::A, Class::CLASS_IN));
    match resolver.resolve_start(&request, 16, 0) {
        Err(DnsError::ResolveError(_)) => {}
        other => panic!("expected a resolve error, got {:?}", step_name(&other)),
    }
}

#[test]
fn exhausted_referral_budget_is_a_resolve_error() {
    // start with a zero budget: the first glue-less referral must fail
    // instead of recursing
    let mut resolver = Resolver::new(vec![]);
    let request = request_for("example.com", Type::A);
    let session = match resolver.resolve_start(&request, 0, 0) {
        Ok(ResolveStep::SendQuery(session, _, _)) => session,
        other => panic!("expected a query, got {:?}", step_name(&other)),
    };
    let mut response = empty_response(99);
    response.authorities.push(DnsRecord {
        name: "example.com".to_string(),
        class: Class::CLASS_IN,
        ttl: 600,
        rdata: Rdata::NS("ns1.example.net".to_string()),
    });
    match resolver.resolve_response(session, &response, 0) {
        Err(DnsError::ResolveError(_)) => {}
        other => panic!("expected a depth error, got {:?}", step_name(&other)),
    }
}

#[test]
fn referral_budget_counts_down() {
    let mut resolver = Resolver::new(vec![]);
    let request = request_for("example.com", Type::A);
    let session = match resolver.resolve_start(&request, 5, 0) {
        Ok(ResolveStep::SendQuery(session, _, _)) => session,
        other => panic!("expected a query, got {:?}", step_name(&other)),
    };
    assert_eq!(session.depth(), 5);
    let mut response = empty_response(99);
    response.authorities.push(DnsRecord {
        name: "example.com".to_string(),
        class: Class::CLASS_IN,
        ttl: 600,
        rdata: Rdata::NS("ns1.example.net".to_string()),
    });
    match resolver.resolve_response(session, &response, 0) {
        Ok(ResolveStep::ResolveNs(session2, _)) => {
            assert_eq!(session2.depth(), 4);
        }
        other => panic!("expected a name server resolution, got {:?}", step_name(&other)),
    }
}

#[test]
fn answer_in_response_finishes_resolution() {
    let mut resolver = Resolver::new(vec![]);
    let request = request_for("example.com", Type::A);
    let session = match resolver.resolve_start(&request, 16, 0) {
        Ok(ResolveStep::SendQuery(session, _, _)) => session,
        other => panic!("expected a query, got {:?}", step_name(&other)),
    };
    let mut response = empty_response(99);
    response.answers.push(DnsRecord {
        name: "example.com".to_string(),
        class: Class::CLASS_IN,
        ttl: 300,
        rdata: Rdata::A("93.184.216.34".to_string()),
    });
    match resolver.resolve_response(session, &response, 0) {
        Ok(ResolveStep::Done(packet)) => {
            assert_eq!(packet.header.id, 3131);
            assert_eq!(packet.header.flags & 0x8000, 0x8000);
            assert_eq!(packet.answers, response.answers);
            assert_eq!(packet.questions, request.questions);
        }
        other => panic!("expected a final response, got {:?}", step_name(&other)),
    }
    // the answer was written through to the cache
    assert_eq!(resolver.cache.len(), 1);
}

#[test]
fn cname_answer_moves_the_chase_to_its_target() {
    let mut resolver = Resolver::new(vec![]);
    let request = request_for("www.example.com", Type::A);
    let session = match resolver.resolve_start(&request, 16, 0) {
        Ok(ResolveStep::SendQuery(session, _, _)) => session,
        other => panic!("expected a query, got {:?}", step_name(&other)),
    };
    let mut response = empty_response(99);
    response.answers.push(DnsRecord {
        name: "www.example.com".to_string(),
        class: Class::CLASS_IN,
        ttl: 60,
        rdata: Rdata::CNAME("example.com".to_string()),
    });
    match resolver.resolve_response(session, &response, 0) {
        Ok(ResolveStep::SendQuery(_session, nameserver, question)) => {
            // same name server, new name
            assert_eq!(nameserver, "198.41.0.4");
            assert_eq!(question.name, "example.com");
            assert_eq!(question.qtype, Type::A);
        }
        other => panic!("expected a follow-up query, got {:?}", step_name(&other)),
    }
}

#[test]
fn glue_referral_moves_to_the_glued_nameserver() {
    let mut resolver = Resolver::new(vec![]);
    let request = request_for("example.com", Type::A);
    let session = match resolver.resolve_start(&request, 16, 0) {
        Ok(ResolveStep::SendQuery(session, _, _)) => session,
        other => panic!("expected a query, got {:?}", step_name(&other)),
    };
    let mut response = empty_response(99);
    response.additionals.push(DnsRecord {
        name: "a.gtld-servers.net".to_string(),
        class: Class::CLASS_IN,
        ttl: 600,
        rdata: Rdata::A("192.5.6.30".to_string()),
    });
    match resolver.resolve_response(session, &response, 0) {
        Ok(ResolveStep::SendQuery(_session, nameserver, question)) => {
            assert_eq!(nameserver, "192.5.6.30");
            assert_eq!(question.name, "example.com");
        }
        other => panic!("expected a query to the glued server, got {:?}", step_name(&other)),
    }
}

#[test]
fn glueless_referral_asks_for_the_nameserver_address() {
    let mut resolver = Resolver::new(vec![]);
    let request = request_for("example.com", Type::A);
    let session = match resolver.resolve_start(&request, 16, 0) {
        Ok(ResolveStep::SendQuery(session, _, _)) => session,
        other => panic!("expected a query, got {:?}", step_name(&other)),
    };
    let mut response = empty_response(99);
    response.authorities.push(DnsRecord {
        name: "example.com".to_string(),
        class: Class::CLASS_IN,
        ttl: 600,
        rdata: Rdata::NS("ns1.example.net".to_string()),
    });
    let session2 = match resolver.resolve_response(session, &response, 0) {
        Ok(ResolveStep::ResolveNs(session2, domain)) => {
            assert_eq!(domain, "ns1.example.net");
            session2
        }
        other => panic!("expected a name server resolution, got {:?}", step_name(&other)),
    };
    // handing back the address continues at that server
    match resolver.resolve_ns_ip(session2, "198.51.100.7".to_string(), 0) {
        Ok(ResolveStep::SendQuery(_s, nameserver, question)) => {
            assert_eq!(nameserver, "198.51.100.7");
            assert_eq!(question.name, "example.com");
        }
        other => panic!("expected a query to the resolved server, got {:?}", step_name(&other)),
    }
}

#[test]
fn unusable_response_is_a_resolve_error() {
    let mut resolver = Resolver::new(vec![]);
    let request = request_for("example.com", Type::A);
    let session = match resolver.resolve_start(&request, 16, 0) {
        Ok(ResolveStep::SendQuery(session, _, _)) => session,
        other => panic!("expected a query, got {:?}", step_name(&other)),
    };
    let response = empty_response(99);
    match resolver.resolve_response(session, &response, 0) {
        Err(DnsError::ResolveError(_)) => {}
        other => panic!("expected a resolve error, got {:?}", step_name(&other)),
    }
}

#[test]
fn extract_answer_picks_requested_type() {
    let mut response = empty_response(1);
    response.answers.push(DnsRecord {
        name: "example.com".to_string(),
        class: Class::CLASS_IN,
        ttl: 60,
        rdata: Rdata::CNAME("other.example.com".to_string()),
    });
    response.answers.push(DnsRecord {
        name: "other.example.com".to_string(),
        class: Class::CLASS_IN,
        ttl: 60,
        rdata: Rdata::A("192.0.2.99".to_string()),
    });
    assert_eq!(
        Resolver::extract_answer(&response, Type::A),
        Ok("192.0.2.99".to_string())
    );
    assert_eq!(
        Resolver::extract_answer(&response, Type::CNAME),
        Ok("other.example.com".to_string())
    );
    assert!(Resolver::extract_answer(&response, Type::AAAA).is_err());
}

#[test]
fn interleaved_requests_for_same_name_leave_one_cache_entry() {
    // Two in-flight requests for the same uncached name: both miss, both
    // query upstream, both succeed; the later write simply overwrites the
    // earlier one and the cache holds exactly one entry for the question.
    let mut resolver = Resolver::new(vec![]);
    let request = request_for("example.com", Type::A);
    let session_one = match resolver.resolve_start(&request, 16, 0) {
        Ok(ResolveStep::SendQuery(session, _, _)) => session,
        other => panic!("expected a query, got {:?}", step_name(&other)),
    };
    let session_two = match resolver.resolve_start(&request, 16, 0) {
        Ok(ResolveStep::SendQuery(session, _, _)) => session,
        other => panic!("expected a second query, got {:?}", step_name(&other)),
    };
    let answer = DnsRecord {
        name: "example.com".to_string(),
        class: Class::CLASS_IN,
        ttl: 300,
        rdata: Rdata::A("93.184.216.34".to_string()),
    };
    let mut response = empty_response(99);
    response.answers.push(answer.clone());
    let first = resolver.resolve_response(session_one, &response.clone(), 1);
    let second = resolver.resolve_response(session_two, &response, 2);
    assert!(matches!(first, Ok(ResolveStep::Done(_))));
    assert!(matches!(second, Ok(ResolveStep::Done(_))));
    assert_eq!(resolver.cache.len(), 1);
    let question = DnsQuestion::new("example.com", Type::A, Class::CLASS_IN);
    assert_eq!(resolver.cache.lookup(&question, 3), Some(answer));
}

fn step_name(step: &Result<ResolveStep, DnsError>) -> String {
    match step {
        Ok(ResolveStep::Done(_)) => "Done".to_string(),
        Ok(ResolveStep::SendQuery(_, ns, _)) => format!("SendQuery({})", ns),
        Ok(ResolveStep::ResolveNs(_, d)) => format!("ResolveNs({})", d),
        Err(e) => format!("Err({:?})", e),
    }
}
