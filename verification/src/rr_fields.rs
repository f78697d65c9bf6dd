//! Enums for DNS resource-record fields: the record types this resolver
//! understands and the single supported class, with their wire-format codes.

use vstd::prelude::*;

use crate::error::DnsError;
use crate::strutil::u16_to_decimal_string;

verus! {

/// A DNS record type. The wire codes are given by [`type_code`].
#[derive(Clone, Copy, PartialEq, Eq, Structural, Debug, Hash)]
pub enum Type {
    A,
    NS,
    CNAME,
    SOA,
    MX,
    TXT,
    AAAA,
}

/// A DNS class; only the Internet class is supported.
#[derive(Clone, Copy, PartialEq, Eq, Structural, Debug, Hash)]
#[allow(non_camel_case_types)]
pub enum Class {
    CLASS_IN,
}

/// The 16-bit wire code of a record type (RFC 1035, with AAAA from RFC 3596).
pub open spec fn type_code(t: Type) -> u16 {
    match t {
        Type::A => 1,
        Type::NS => 2,
        Type::CNAME => 5,
        Type::SOA => 6,
        Type::MX => 15,
        Type::TXT => 16,
        Type::AAAA => 28,
    }
}

/// The record type denoted by a 16-bit wire code, if any.
pub open spec fn type_from_code(val: u16) -> Option<Type> {
    if val == 1 {
        Some(Type::A)
    } else if val == 2 {
        Some(Type::NS)
    } else if val == 5 {
        Some(Type::CNAME)
    } else if val == 6 {
        Some(Type::SOA)
    } else if val == 15 {
        Some(Type::MX)
    } else if val == 16 {
        Some(Type::TXT)
    } else if val == 28 {
        Some(Type::AAAA)
    } else {
        None
    }
}

/// The 16-bit wire code of a class.
pub open spec fn class_code(c: Class) -> u16 {
    match c {
        Class::CLASS_IN => 1,
    }
}

/// The class denoted by a 16-bit wire code, if any.
pub open spec fn class_from_code(val: u16) -> Option<Class> {
    if val == 1 {
        Some(Class::CLASS_IN)
    } else {
        None
    }
}

/// A type's wire code decodes back to the type.
pub proof fn lemma_type_code_round_trip(t: Type)
    ensures
        type_from_code(type_code(t)) == Some(t),
{
}

/// A class's wire code decodes back to the class.
pub proof fn lemma_class_code_round_trip(c: Class)
    ensures
        class_from_code(class_code(c)) == Some(c),
{
}

impl Type {
    /// The wire code of this type.
    pub fn to_u16(self) -> (r: u16)
        ensures
            r == type_code(self),
    {
        match self {
            Type::A => 1,
            Type::NS => 2,
            Type::CNAME => 5,
            Type::SOA => 6,
            Type::MX => 15,
            Type::TXT => 16,
            Type::AAAA => 28,
        }
    }

    /// Decode a wire code into a record type; an unknown code is a decode
    /// error naming the offending integer.
    pub fn try_from(val: u16) -> (r: Result<Type, DnsError>)
        ensures
            match r {
                Ok(t) => type_from_code(val) == Some(t),
                Err(e) => type_from_code(val) is None && e is DecodeError,
            },
    {
        match val {
            1 => Ok(Type::A),
            2 => Ok(Type::NS),
            5 => Ok(Type::CNAME),
            6 => Ok(Type::SOA),
            15 => Ok(Type::MX),
            16 => Ok(Type::TXT),
            28 => Ok(Type::AAAA),
            _ => {
                let mut msg = String::from_str("Integer not converted to a RR Type: ");
                msg.append(u16_to_decimal_string(val).as_str());
                Err(DnsError::DecodeError(msg))
            },
        }
    }
}

impl Class {
    /// The wire code of this class.
    pub fn to_u16(self) -> (r: u16)
        ensures
            r == class_code(self),
    {
        match self {
            Class::CLASS_IN => 1,
        }
    }

    /// Decode a wire code into a class; an unknown code is a decode error
    /// naming the offending integer.
    pub fn try_from(val: u16) -> (r: Result<Class, DnsError>)
        ensures
            match r {
                Ok(c) => class_from_code(val) == Some(c),
                Err(e) => class_from_code(val) is None && e is DecodeError,
            },
    {
        match val {
            1 => Ok(Class::CLASS_IN),
            _ => {
                let mut msg = String::from_str("Integer not converted to a RR Class: ");
                msg.append(u16_to_decimal_string(val).as_str());
                Err(DnsError::DecodeError(msg))
            },
        }
    }
}

} // verus!
