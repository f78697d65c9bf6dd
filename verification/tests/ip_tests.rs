use dnsvisor::ip::{format_ipv4, format_ipv6, parse_ipv4, parse_ipv6};

#[test]
fn ipv4_format_and_parse() {
    assert_eq!(format_ipv4(192, 0, 2, 17), "192.0.2.17");
    assert_eq!(format_ipv4(0, 0, 0, 0), "0.0.0.0");
    assert_eq!(format_ipv4(255, 255, 255, 255), "255.255.255.255");
    assert_eq!(parse_ipv4("192.0.2.17"), Some((192, 0, 2, 17)));
    assert_eq!(parse_ipv4("0.0.0.0"), Some((0, 0, 0, 0)));
}

#[test]
fn ipv4_parse_rejects_malformed() {
    assert_eq!(parse_ipv4(""), None);
    assert_eq!(parse_ipv4("1.2.3"), None);
    assert_eq!(parse_ipv4("1.2.3.4.5"), None);
    assert_eq!(parse_ipv4("256.0.0.1"), None);
    assert_eq!(parse_ipv4("01.2.3.4"), None);
    assert_eq!(parse_ipv4("1.2.3.a"), None);
    assert_eq!(parse_ipv4("1..2.3"), None);
}

#[test]
fn ipv4_round_trip() {
    let cases = [(10u8, 20u8, 30u8, 40u8), (127, 0, 0, 1), (203, 0, 113, 9)];
    for (a, b, c, d) in cases {
        let s = format_ipv4(a, b, c, d);
        assert_eq!(parse_ipv4(&s), Some((a, b, c, d)));
    }
}

#[test]
fn ipv6_format_compresses_longest_zero_run() {
    let bytes = hex::decode("2607f8b04006080d0000000000002004").unwrap();
    assert_eq!(format_ipv6(&bytes), "2607:f8b0:4006:80d::2004");
    let loopback = hex::decode("00000000000000000000000000000001").unwrap();
    assert_eq!(format_ipv6(&loopback), "::1");
    let unspecified = hex::decode("00000000000000000000000000000000").unwrap();
    assert_eq!(format_ipv6(&unspecified), "::");
    let no_run = hex::decode("00010002000300040005000600070008").unwrap();
    assert_eq!(format_ipv6(&no_run), "1:2:3:4:5:6:7:8");
    // a single zero group is not compressed
    let single = hex::decode("00010000000300040005000600070008").unwrap();
    assert_eq!(format_ipv6(&single), "1:0:3:4:5:6:7:8");
    // the leftmost of two equal runs wins
    let tie = hex::decode("00010000000000040005000000000008").unwrap();
    assert_eq!(format_ipv6(&tie), "1::4:5:0:0:8");
}

#[test]
fn ipv6_format_v4_mapped() {
    let bytes = hex::decode("00000000000000000000ffffc0000201").unwrap();
    assert_eq!(format_ipv6(&bytes), "::ffff:192.0.2.1");
}

#[test]
fn ipv6_parse_forms() {
    assert_eq!(
        parse_ipv6("2607:f8b0:4006:80d::2004"),
        Some(hex::decode("2607f8b04006080d0000000000002004").unwrap())
    );
    assert_eq!(
        parse_ipv6("1:2:3:4:5:6:7:8"),
        Some(hex::decode("00010002000300040005000600070008").unwrap())
    );
    assert_eq!(
        parse_ipv6("::1"),
        Some(hex::decode("00000000000000000000000000000001").unwrap())
    );
    assert_eq!(
        parse_ipv6("::"),
        Some(hex::decode("00000000000000000000000000000000").unwrap())
    );
    assert_eq!(
        parse_ipv6("fe80::"),
        Some(hex::decode("fe800000000000000000000000000000").unwrap())
    );
    assert_eq!(
        parse_ipv6("::ffff:192.0.2.1"),
        Some(hex::decode("00000000000000000000ffffc0000201").unwrap())
    );
    // uppercase hex digits are accepted
    assert_eq!(
        parse_ipv6("2001:DB8::1"),
        Some(hex::decode("20010db8000000000000000000000001").unwrap())
    );
}

#[test]
fn ipv6_parse_rejects_malformed() {
    assert_eq!(parse_ipv6(""), None);
    assert_eq!(parse_ipv6(":"), None);
    assert_eq!(parse_ipv6(":::"), None);
    assert_eq!(parse_ipv6("1:2:3:4:5:6:7"), None);
    assert_eq!(parse_ipv6("1:2:3:4:5:6:7:8:9"), None);
    assert_eq!(parse_ipv6("1::2::3"), None);
    assert_eq!(parse_ipv6("12345::"), None);
    assert_eq!(parse_ipv6("g::1"), None);
    assert_eq!(parse_ipv6("1:2:3:4:5:6:7:8::"), None);
}

#[test]
fn ipv6_round_trip_canonical() {
    let cases = [
        "2607:f8b0:4006:80d::2004",
        "::1",
        "::",
        "1:2:3:4:5:6:7:8",
        "fe80::1",
        "::ffff:192.0.2.1",
    ];
    for s in cases {
        let bytes = parse_ipv6(s).unwrap();
        assert_eq!(format_ipv6(&bytes), s);
    }
}
