use dnsvisor::rr_fields::{Class, Type};

#[test]
fn test_try_from() {
    let vals = [1, 2, 5, 15, 16, 28];
    let converted = vals.map(|x| Type::try_from(x));
    let expected = [
        Ok(Type::A),
        Ok(Type::NS),
        Ok(Type::CNAME),
        Ok(Type::MX),
        Ok(Type::TXT),
        Ok(Type::AAAA),
    ];
    assert_eq!(converted, expected);
}

#[test]
fn test_try_from_err() {
    let val = 65535;
    let converted = Type::try_from(val);
    assert!(converted.is_err());
}

#[test]
fn type_codes_round_trip() {
    let types = [Type::A, Type::NS, Type::CNAME, Type::SOA, Type::MX, Type::TXT, Type::AAAA];
    for t in types {
        assert_eq!(Type::try_from(t.to_u16()), Ok(t));
    }
}

#[test]
fn class_codes() {
    assert_eq!(Class::CLASS_IN.to_u16(), 1);
    assert_eq!(Class::try_from(1), Ok(Class::CLASS_IN));
    assert!(Class::try_from(3).is_err());
}
