use dnsvisor::cache::{DnsCache, DnsCacheEntry};
use dnsvisor::error::DnsError;
use dnsvisor::question::DnsQuestion;
use dnsvisor::record::{DnsRecord, Rdata};
use dnsvisor::rr_fields::{Class, Type};

#[test]
fn entry_not_expired() {
    let ttl = 5;
    let expected = false;
    let record = DnsRecord {
        name: String::from("placeholder"),
        class: Class::CLASS_IN,
        ttl: ttl,
        rdata: Rdata::A(String::from("")),
    };
    let entry = DnsCacheEntry::new(record, 0).unwrap();
    let res = entry.expired(0);
    assert_eq!(expected, res);
}

#[test]
fn entry_expired() {
    let ttl: u32 = 1;
    let elapsed = (ttl + 1) as u64;
    let expected = true;
    let record = DnsRecord {
        name: String::from("example.com"),
        class: Class::CLASS_IN,
        ttl: ttl,
        rdata: Rdata::A(String::from("")),
    };
    let entry = DnsCacheEntry::new(record, 0);
    let res = entry.unwrap().expired(elapsed);
    assert_eq!(expected, res);
}

#[test]
fn cache_lookup_empty() {
    let mut cache = DnsCache::new();
    let query = DnsQuestion {
        name: "example.com".to_string(),
        qtype: Type::A,
        class: Class::CLASS_IN,
    };
    let expected = None;
    assert_eq!(cache.lookup(&query, 0), expected);
}

#[test]
fn cache_lookup_hit() {
    let mut cache = DnsCache::new();
    let record = DnsRecord {
        name: "example.com".to_string(),
        class: Class::CLASS_IN,
        ttl: 5,
        rdata: Rdata::A("127.0.0.1".to_string()),
    };
    let question = record.get_question();
    cache.add(&record, 0).unwrap();
    let expected = Some(record);
    let result = cache.lookup(&question, 0);
    assert_eq!(result, expected);
}

#[test]
fn cache_lookup_expired() {
    let mut cache = DnsCache::new();
    let record = DnsRecord {
        name: "example.com".to_string(),
        class: Class::CLASS_IN,
        ttl: 0,
        rdata: Rdata::A("127.0.0.1".to_string()),
    };
    let question = record.get_question();
    cache.add(&record, 0).unwrap();
    let expected = None;
    let result = cache.lookup(&question, 0);
    assert_eq!(result, expected);
    assert!(cache.is_empty())
}

#[test]
fn cache_entry_lives_for_exactly_ttl_seconds() {
    let mut cache = DnsCache::new();
    let record = DnsRecord {
        name: "example.com".to_string(),
        class: Class::CLASS_IN,
        ttl: 10,
        rdata: Rdata::A("192.0.2.1".to_string()),
    };
    let question = record.get_question();
    cache.add(&record, 100).unwrap();
    // within the ttl window the record comes back
    assert_eq!(cache.lookup(&question, 100), Some(record.clone()));
    assert_eq!(cache.lookup(&question, 109), Some(record.clone()));
    // at the expiry instant the entry is evicted
    assert_eq!(cache.lookup(&question, 110), None);
    assert!(cache.is_empty());
}

#[test]
fn cache_overwrite_same_question() {
    let mut cache = DnsCache::new();
    let r1 = DnsRecord {
        name: "example.com".to_string(),
        class: Class::CLASS_IN,
        ttl: 60,
        rdata: Rdata::A("192.0.2.1".to_string()),
    };
    let r2 = DnsRecord {
        name: "example.com".to_string(),
        class: Class::CLASS_IN,
        ttl: 60,
        rdata: Rdata::A("192.0.2.2".to_string()),
    };
    let question = r1.get_question();
    cache.add(&r1, 0).unwrap();
    cache.add(&r2, 0).unwrap();
    assert_eq!(cache.len(), 1);
    assert_eq!(cache.lookup(&question, 1), Some(r2));
}

#[test]
fn cache_add_overflowing_expiry_is_rejected() {
    let mut cache = DnsCache::new();
    let record = DnsRecord {
        name: "example.com".to_string(),
        class: Class::CLASS_IN,
        ttl: 2,
        rdata: Rdata::A("192.0.2.1".to_string()),
    };
    let question = record.get_question();
    match cache.add(&record, u64::MAX - 1) {
        Err(DnsError::CacheError(_)) => {}
        other => panic!("expected a cache error, got {:?}", other),
    }
    assert_eq!(cache.lookup(&question, 0), None);
}
