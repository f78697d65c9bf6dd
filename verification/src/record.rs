//! DNS resource records: the record header and the per-type RDATA codecs
//! (A, NS, CNAME, AAAA, SOA, MX). Recognised but unsupported types decode
//! to a typed not-implemented error instead of silently succeeding.

use vstd::prelude::*;

use crate::cursor::{be16, be32, lemma_be16_round_trip, lemma_be32_round_trip, u16_be_bytes, u32_be_bytes, Cursor};
use crate::error::DnsError;
use crate::ip::{
    format_ipv4, format_ipv6, ipv4_chars, ipv6_chars, lemma_ipv4_round_trip,
    lemma_ipv6_round_trip, parse_ipv4, parse_ipv6, spec_parse_ipv4, spec_parse_ipv6,
};
use crate::question::{DnsQuestion, QuestionView};
use crate::rr_fields::{class_code, class_from_code, lemma_class_code_round_trip, lemma_type_code_round_trip, type_code, type_from_code, Class, Type};
use crate::util::{
    decode_dns_name, encode_dns_name, encode_ok, encoded_name, lemma_decode_encoded_at,
    lemma_embedded_byte, lemma_embedded_subrange, lemma_encoded_name_len, spec_decode_name,
    valid_dns_name, visited_ok,
};

verus! {


broadcast use crate::cursor::lemma_cursor_pos_nonneg;

/// A resource record: its name, class, time to live, and typed RDATA. The
/// record type is implied by the RDATA variant.
#[derive(Debug, PartialEq, Clone)]
pub struct DnsRecord {
    pub name: String,
    pub class: Class,
    pub ttl: u32,
    pub rdata: Rdata,
}

/// The typed RDATA of a record. Addresses are carried in presentation form.
#[derive(Debug, PartialEq, Clone)]
#[allow(clippy::upper_case_acronyms)]
pub enum Rdata {
    A(String),
    NS(String),
    CNAME(String),
    AAAA(String),
    SOA(RdataSOA),
    MX(RdataMX),
}

/// SOA RDATA: two names, then four 32-bit counters.
#[derive(Debug, PartialEq, Clone)]
pub struct RdataSOA {
    pub mname: String,
    pub rname: String,
    pub serial: u32,
    pub refresh: u32,
    pub retry: u32,
    pub expire: u32,
}

/// MX RDATA: a 16-bit preference, then the exchange name.
#[derive(Debug, PartialEq, Clone)]
pub struct RdataMX {
    pub preference: u16,
    pub exchange: String,
}

/// The mathematical view of SOA RDATA.
pub ghost struct SoaView {
    pub mname: Seq<char>,
    pub rname: Seq<char>,
    pub serial: u32,
    pub refresh: u32,
    pub retry: u32,
    pub expire: u32,
}

/// The mathematical view of MX RDATA.
pub ghost struct MxView {
    pub preference: u16,
    pub exchange: Seq<char>,
}

/// The mathematical view of RDATA.
pub ghost enum RdataView {
    A(Seq<char>),
    NS(Seq<char>),
    CNAME(Seq<char>),
    AAAA(Seq<char>),
    SOA(SoaView),
    MX(MxView),
}

/// The mathematical view of a record.
pub ghost struct RecordView {
    pub name: Seq<char>,
    pub class: Class,
    pub ttl: u32,
    pub rdata: RdataView,
}

impl View for RdataSOA {
    type V = SoaView;

    open spec fn view(&self) -> SoaView {
        SoaView {
            mname: self.mname@,
            rname: self.rname@,
            serial: self.serial,
            refresh: self.refresh,
            retry: self.retry,
            expire: self.expire,
        }
    }
}

impl View for RdataMX {
    type V = MxView;

    open spec fn view(&self) -> MxView {
        MxView { preference: self.preference, exchange: self.exchange@ }
    }
}

impl View for Rdata {
    type V = RdataView;

    open spec fn view(&self) -> RdataView {
        match self {
            Rdata::A(s) => RdataView::A(s@),
            Rdata::NS(s) => RdataView::NS(s@),
            Rdata::CNAME(s) => RdataView::CNAME(s@),
            Rdata::AAAA(s) => RdataView::AAAA(s@),
            Rdata::SOA(soa) => RdataView::SOA(soa@),
            Rdata::MX(mx) => RdataView::MX(mx@),
        }
    }
}

impl View for DnsRecord {
    type V = RecordView;

    open spec fn view(&self) -> RecordView {
        RecordView { name: self.name@, class: self.class, ttl: self.ttl, rdata: self.rdata@ }
    }
}

/// The record type implied by an RDATA variant.
pub open spec fn rdata_type(r: RdataView) -> Type {
    match r {
        RdataView::A(_) => Type::A,
        RdataView::NS(_) => Type::NS,
        RdataView::CNAME(_) => Type::CNAME,
        RdataView::AAAA(_) => Type::AAAA,
        RdataView::SOA(_) => Type::SOA,
        RdataView::MX(_) => Type::MX,
    }
}

/// The question a record answers: its name, its implied type, its class.
pub open spec fn record_question(r: RecordView) -> QuestionView {
    QuestionView { name: r.name, qtype: rdata_type(r.rdata), class: r.class }
}

/// A name that the encoder accepts: ASCII, labels of at most 63 characters.
pub open spec fn name_encodable(s: Seq<char>) -> bool {
    vstd::utf8::is_ascii_chars(s) && encode_ok(s)
}

/// True when every name inside the RDATA is encodable.
pub open spec fn rdata_wf(r: RdataView) -> bool {
    match r {
        RdataView::A(_) => true,
        RdataView::AAAA(_) => true,
        RdataView::NS(n) => name_encodable(n),
        RdataView::CNAME(n) => name_encodable(n),
        RdataView::SOA(soa) => name_encodable(soa.mname) && name_encodable(soa.rname),
        RdataView::MX(mx) => name_encodable(mx.exchange),
    }
}

/// The wire bytes of an RDATA value, or nothing if an address string does
/// not parse (an encode error).
pub open spec fn rdata_bytes(r: RdataView) -> Option<Seq<u8>> {
    match r {
        RdataView::A(s) => match spec_parse_ipv4(s) {
            Some((a, b, c, d)) => Some(seq![a, b, c, d]),
            None => None,
        },
        RdataView::NS(n) => Some(encoded_name(n)),
        RdataView::CNAME(n) => Some(encoded_name(n)),
        RdataView::AAAA(s) => match spec_parse_ipv6(s) {
            Some(bytes) => Some(bytes),
            None => None,
        },
        RdataView::SOA(soa) => Some(
            encoded_name(soa.mname) + encoded_name(soa.rname) + u32_be_bytes(soa.serial)
                + u32_be_bytes(soa.refresh) + u32_be_bytes(soa.retry) + u32_be_bytes(soa.expire),
        ),
        RdataView::MX(mx) => Some(u16_be_bytes(mx.preference) + encoded_name(mx.exchange)),
    }
}

/// The full wire encoding of a record: name, type, class, ttl, RDATA length
/// and RDATA; or nothing if the RDATA does not encode or exceeds the 16-bit
/// length field.
pub open spec fn spec_record_bytes(rec: RecordView) -> Option<Seq<u8>> {
    match rdata_bytes(rec.rdata) {
        Some(d) => if d.len() <= 0xFFFF {
            Some(
                encoded_name(rec.name) + u16_be_bytes(type_code(rdata_type(rec.rdata)))
                    + u16_be_bytes(class_code(rec.class)) + u32_be_bytes(rec.ttl) + u16_be_bytes(
                    d.len() as u16,
                ) + d,
            )
        } else {
            None
        },
        None => None,
    }
}

/// The SOA RDATA read from `buf` at `pos`, and the position just past it.
pub open spec fn spec_parse_soa(buf: Seq<u8>, pos: int) -> Option<(SoaView, int)> {
    match spec_decode_name(buf, pos, Set::empty()) {
        None => None,
        Some((mname, p1)) => match spec_decode_name(buf, p1, Set::empty()) {
            None => None,
            Some((rname, p2)) => {
                if p2 + 16 > buf.len() {
                    None
                } else {
                    Some(
                        (
                            SoaView {
                                mname,
                                rname,
                                serial: be32(buf[p2], buf[p2 + 1], buf[p2 + 2], buf[p2 + 3]),
                                refresh: be32(
                                    buf[p2 + 4],
                                    buf[p2 + 5],
                                    buf[p2 + 6],
                                    buf[p2 + 7],
                                ),
                                retry: be32(buf[p2 + 8], buf[p2 + 9], buf[p2 + 10], buf[p2 + 11]),
                                expire: be32(
                                    buf[p2 + 12],
                                    buf[p2 + 13],
                                    buf[p2 + 14],
                                    buf[p2 + 15],
                                ),
                            },
                            p2 + 16,
                        ),
                    )
                }
            },
        },
    }
}

/// The MX RDATA read from `buf` at `pos`, and the position just past it.
pub open spec fn spec_parse_mx(buf: Seq<u8>, pos: int) -> Option<(MxView, int)> {
    if pos + 2 > buf.len() {
        None
    } else {
        match spec_decode_name(buf, pos + 2, Set::empty()) {
            None => None,
            Some((exchange, e)) => Some(
                (MxView { preference: be16(buf[pos], buf[pos + 1]), exchange }, e),
            ),
        }
    }
}

/// The RDATA read from `buf` at `pos` for a record of type `rtype`: a
/// 16-bit length, then the type's own layout. Unsupported types never
/// decode.
pub open spec fn spec_parse_rdata(buf: Seq<u8>, pos: int, rtype: Type) -> Option<
    (RdataView, int),
> {
    if pos + 2 > buf.len() {
        None
    } else {
        let size = be16(buf[pos], buf[pos + 1]) as int;
        let p = pos + 2;
        match rtype {
            Type::A => {
                if size != 4 || p + 4 > buf.len() {
                    None
                } else {
                    Some(
                        (
                            RdataView::A(ipv4_chars(buf[p], buf[p + 1], buf[p + 2], buf[p + 3])),
                            p + 4,
                        ),
                    )
                }
            },
            Type::NS => match spec_decode_name(buf, p, Set::empty()) {
                Some((n, e)) => Some((RdataView::NS(n), e)),
                None => None,
            },
            Type::CNAME => match spec_decode_name(buf, p, Set::empty()) {
                Some((n, e)) => Some((RdataView::CNAME(n), e)),
                None => None,
            },
            Type::AAAA => {
                if size != 16 || p + 16 > buf.len() {
                    None
                } else {
                    Some((RdataView::AAAA(ipv6_chars(buf.subrange(p, p + 16))), p + 16))
                }
            },
            Type::SOA => match spec_parse_soa(buf, p) {
                Some((soa, e)) => Some((RdataView::SOA(soa), e)),
                None => None,
            },
            Type::MX => match spec_parse_mx(buf, p) {
                Some((mx, e)) => Some((RdataView::MX(mx), e)),
                None => None,
            },
            Type::TXT => None,
        }
    }
}

/// The record read from `buf` at `pos`, and the position just past it: a
/// name, known type and class codes, a ttl, and the type's RDATA.
pub open spec fn spec_parse_record(buf: Seq<u8>, pos: int) -> Option<(RecordView, int)> {
    match spec_decode_name(buf, pos, Set::empty()) {
        None => None,
        Some((name, p1)) => {
            if p1 + 8 > buf.len() {
                None
            } else {
                match type_from_code(be16(buf[p1], buf[p1 + 1])) {
                    None => None,
                    Some(t) => match class_from_code(be16(buf[p1 + 2], buf[p1 + 3])) {
                        None => None,
                        Some(c) => {
                            let ttl = be32(buf[p1 + 4], buf[p1 + 5], buf[p1 + 6], buf[p1 + 7]);
                            match spec_parse_rdata(buf, p1 + 8, t) {
                                None => None,
                                Some((rd, e)) => Some(
                                    (RecordView { name, class: c, ttl, rdata: rd }, e),
                                ),
                            }
                        },
                    },
                }
            }
        },
    }
}

impl RdataSOA {
    /// A copy with the same view.
    pub fn duplicate(&self) -> (r: RdataSOA)
        ensures
            r@ == self@,
    {
        RdataSOA {
            mname: self.mname.clone(),
            rname: self.rname.clone(),
            serial: self.serial,
            refresh: self.refresh,
            retry: self.retry,
            expire: self.expire,
        }
    }

    /// Decode SOA RDATA: two names, then four 32-bit counters.
    pub fn from_bytes(reader: &mut Cursor) -> (r: Result<RdataSOA, DnsError>)
        ensures
            final(reader)@ == old(reader)@,
            match r {
                Ok(soa) => spec_parse_soa(old(reader)@, old(reader).spec_pos()) matches Some(p)
                    && soa@ == p.0 && final(reader).spec_pos() == p.1,
                Err(e) => spec_parse_soa(old(reader)@, old(reader).spec_pos()) is None && (
                e is DecodeError),
            },
    {
        let mname = decode_dns_name(reader)?;
        let rname = decode_dns_name(reader)?;
        let serial = match reader.read_u32_be() {
            Some(x) => x,
            None => {
                return Err(
                    DnsError::DecodeError(String::from_str("Failed to read exact bytes from cursor")),
                );
            },
        };
        let refresh = match reader.read_u32_be() {
            Some(x) => x,
            None => {
                return Err(
                    DnsError::DecodeError(String::from_str("Failed to read exact bytes from cursor")),
                );
            },
        };
        let retry = match reader.read_u32_be() {
            Some(x) => x,
            None => {
                return Err(
                    DnsError::DecodeError(String::from_str("Failed to read exact bytes from cursor")),
                );
            },
        };
        let expire = match reader.read_u32_be() {
            Some(x) => x,
            None => {
                return Err(
                    DnsError::DecodeError(String::from_str("Failed to read exact bytes from cursor")),
                );
            },
        };
        Ok(RdataSOA { mname, rname, serial, refresh, retry, expire })
    }

    /// Encode SOA RDATA. The two names must be encodable.
    pub fn to_bytes(&self) -> (r: Result<Vec<u8>, DnsError>)
        requires
            name_encodable(self@.mname),
            name_encodable(self@.rname),
        ensures
            r matches Ok(v) && Some(v@) == rdata_bytes(RdataView::SOA(self@)),
    {
        let mut bytes = encode_dns_name(self.mname.as_str());
        let mut rb = encode_dns_name(self.rname.as_str());
        bytes.append(&mut rb);
        push_u32_be(&mut bytes, self.serial);
        push_u32_be(&mut bytes, self.refresh);
        push_u32_be(&mut bytes, self.retry);
        push_u32_be(&mut bytes, self.expire);
        proof {
            assert(bytes@ =~= rdata_bytes(RdataView::SOA(self@)).unwrap());
        }
        Ok(bytes)
    }
}

impl RdataMX {
    /// A copy with the same view.
    pub fn duplicate(&self) -> (r: RdataMX)
        ensures
            r@ == self@,
    {
        RdataMX { preference: self.preference, exchange: self.exchange.clone() }
    }

    /// Decode MX RDATA: a 16-bit preference, then the exchange name.
    pub fn from_bytes(reader: &mut Cursor) -> (r: Result<RdataMX, DnsError>)
        ensures
            final(reader)@ == old(reader)@,
            match r {
                Ok(mx) => spec_parse_mx(old(reader)@, old(reader).spec_pos()) matches Some(p)
                    && mx@ == p.0 && final(reader).spec_pos() == p.1,
                Err(e) => spec_parse_mx(old(reader)@, old(reader).spec_pos()) is None && (
                e is DecodeError),
            },
    {
        let preference = match reader.read_u16_be() {
            Some(x) => x,
            None => {
                return Err(
                    DnsError::DecodeError(String::from_str("Failed to read exact bytes from cursor")),
                );
            },
        };
        let exchange = decode_dns_name(reader)?;
        Ok(RdataMX { preference, exchange })
    }

    /// Encode MX RDATA. The exchange name must be encodable.
    pub fn to_bytes(&self) -> (r: Result<Vec<u8>, DnsError>)
        requires
            name_encodable(self@.exchange),
        ensures
            r matches Ok(v) && Some(v@) == rdata_bytes(RdataView::MX(self@)),
    {
        let mut bytes: Vec<u8> = Vec::new();
        bytes.push((self.preference / 256) as u8);
        bytes.push((self.preference % 256) as u8);
        let mut eb = encode_dns_name(self.exchange.as_str());
        bytes.append(&mut eb);
        proof {
            assert(bytes@ =~= rdata_bytes(RdataView::MX(self@)).unwrap());
        }
        Ok(bytes)
    }
}

/// Append the four big-endian bytes of `x`.
fn push_u32_be(bytes: &mut Vec<u8>, x: u32)
    ensures
        final(bytes)@ == old(bytes)@ + u32_be_bytes(x),
{
    bytes.push((x / 0x1000000) as u8);
    bytes.push(((x / 0x10000) % 256) as u8);
    bytes.push(((x / 0x100) % 256) as u8);
    bytes.push((x % 256) as u8);
    proof {
        assert(bytes@ =~= old(bytes)@ + u32_be_bytes(x));
    }
}

impl Rdata {
    /// A copy with the same view.
    pub fn duplicate(&self) -> (r: Rdata)
        ensures
            r@ == self@,
    {
        match self {
            Rdata::A(s) => Rdata::A(s.clone()),
            Rdata::NS(s) => Rdata::NS(s.clone()),
            Rdata::CNAME(s) => Rdata::CNAME(s.clone()),
            Rdata::AAAA(s) => Rdata::AAAA(s.clone()),
            Rdata::SOA(soa) => Rdata::SOA(soa.duplicate()),
            Rdata::MX(mx) => Rdata::MX(mx.duplicate()),
        }
    }
}

impl DnsRecord {
    /// A copy with the same view.
    pub fn duplicate(&self) -> (r: DnsRecord)
        ensures
            r@ == self@,
    {
        DnsRecord {
            name: self.name.clone(),
            class: self.class,
            ttl: self.ttl,
            rdata: self.rdata.duplicate(),
        }
    }

    /// The record type implied by this record's RDATA variant.
    pub fn get_type(&self) -> (t: Type)
        ensures
            t == rdata_type(self@.rdata),
    {
        match &self.rdata {
            Rdata::A(_) => Type::A,
            Rdata::NS(_) => Type::NS,
            Rdata::CNAME(_) => Type::CNAME,
            Rdata::AAAA(_) => Type::AAAA,
            Rdata::SOA(_) => Type::SOA,
            Rdata::MX(_) => Type::MX,
        }
    }

    /// The question this record answers: its name, its implied type, its
    /// class.
    pub fn get_question(&self) -> (q: DnsQuestion)
        ensures
            q@ == record_question(self@),
    {
        DnsQuestion { name: self.name.clone(), qtype: self.get_type(), class: self.class }
    }

    /// Decode a record from the cursor, as `spec_parse_record` describes. An
    /// unsupported record type yields the typed not-implemented error.
    pub fn from_bytes(reader: &mut Cursor) -> (r: Result<DnsRecord, DnsError>)
        ensures
            final(reader)@ == old(reader)@,
            match r {
                Ok(rec) => spec_parse_record(old(reader)@, old(reader).spec_pos()) matches Some(p)
                    && rec@ == p.0 && final(reader).spec_pos() == p.1,
                Err(e) => spec_parse_record(old(reader)@, old(reader).spec_pos()) is None && (
                e is DecodeError || e is NotImplementedError),
            },
    {
        let name = decode_dns_name(reader)?;
        let rtype_raw = match reader.read_u16_be() {
            Some(x) => x,
            None => {
                return Err(
                    DnsError::DecodeError(String::from_str("Failed to read exact bytes from cursor")),
                );
            },
        };
        let rtype = Type::try_from(rtype_raw)?;
        let class_raw = match reader.read_u16_be() {
            Some(x) => x,
            None => {
                return Err(
                    DnsError::DecodeError(String::from_str("Failed to read exact bytes from cursor")),
                );
            },
        };
        let class = Class::try_from(class_raw)?;
        let ttl = match reader.read_u32_be() {
            Some(x) => x,
            None => {
                return Err(
                    DnsError::DecodeError(String::from_str("Failed to read exact bytes from cursor")),
                );
            },
        };
        let rdata = Self::data_from_bytes(reader, rtype)?;
        Ok(DnsRecord { name, class, ttl, rdata })
    }

    /// Decode RDATA for a record of the given type, as `spec_parse_rdata`
    /// describes.
    pub fn data_from_bytes(reader: &mut Cursor, rtype: Type) -> (r: Result<Rdata, DnsError>)
        ensures
            final(reader)@ == old(reader)@,
            match r {
                Ok(rd) => spec_parse_rdata(old(reader)@, old(reader).spec_pos(), rtype)
                    matches Some(p) && rd@ == p.0 && final(reader).spec_pos() == p.1,
                Err(e) => spec_parse_rdata(old(reader)@, old(reader).spec_pos(), rtype) is None && (
                if old(reader).spec_pos() + 2 <= old(reader)@.len() && rtype == Type::TXT {
                    e is NotImplementedError
                } else {
                    e is DecodeError
                }),
            },
    {
        let data_size = match reader.read_u16_be() {
            Some(x) => x,
            None => {
                return Err(
                    DnsError::DecodeError(String::from_str("Failed to read exact bytes from cursor")),
                );
            },
        };
        match rtype {
            Type::A => {
                if data_size != 4 {
                    return Err(
                        DnsError::DecodeError(String::from_str("Failed DNS record data")),
                    );
                }
                let data = match reader.read_bytes(4) {
                    Some(v) => v,
                    None => {
                        return Err(
                            DnsError::DecodeError(String::from_str("Failed DNS record data")),
                        );
                    },
                };
                proof {
                    assert(data@.len() == 4);
                }
                Ok(Rdata::A(format_ipv4(data[0], data[1], data[2], data[3])))
            },
            Type::NS => Ok(Rdata::NS(decode_dns_name(reader)?)),
            Type::AAAA => {
                if data_size != 16 {
                    return Err(
                        DnsError::DecodeError(String::from_str("Failed DNS record data")),
                    );
                }
                let data = match reader.read_bytes(16) {
                    Some(v) => v,
                    None => {
                        return Err(
                            DnsError::DecodeError(String::from_str("Failed DNS record data")),
                        );
                    },
                };
                proof {
                    assert(data@.len() == 16);
                }
                Ok(Rdata::AAAA(format_ipv6(&data)))
            },
            Type::CNAME => Ok(Rdata::CNAME(decode_dns_name(reader)?)),
            Type::SOA => Ok(Rdata::SOA(RdataSOA::from_bytes(reader)?)),
            Type::MX => Ok(Rdata::MX(RdataMX::from_bytes(reader)?)),
            Type::TXT => Err(
                DnsError::NotImplementedError(
                    String::from_str("Decoding data for type TXT not supported yet"),
                ),
            ),
        }
    }

    /// Encode this record's RDATA alone, as `rdata_bytes` describes; an
    /// address string that does not parse is an encode error.
    pub fn data_to_bytes(&self) -> (r: Result<Vec<u8>, DnsError>)
        requires
            rdata_wf(self@.rdata),
        ensures
            match r {
                Ok(v) => rdata_bytes(self@.rdata) == Some(v@),
                Err(e) => rdata_bytes(self@.rdata) is None && e is EncodeError,
            },
    {
        match &self.rdata {
            Rdata::A(string) => {
                match parse_ipv4(string.as_str()) {
                    Some((a, b, c, d)) => {
                        let mut v: Vec<u8> = Vec::new();
                        v.push(a);
                        v.push(b);
                        v.push(c);
                        v.push(d);
                        proof {
                            assert(v@ =~= rdata_bytes(self@.rdata).unwrap());
                        }
                        Ok(v)
                    },
                    None => Err(
                        DnsError::EncodeError(
                            String::from_str("Failed encoding Ipv4Addr in Type A record"),
                        ),
                    ),
                }
            },
            Rdata::NS(string) => Ok(encode_dns_name(string.as_str())),
            Rdata::AAAA(string) => {
                match parse_ipv6(string.as_str()) {
                    Some(v) => Ok(v),
                    None => Err(
                        DnsError::EncodeError(
                            String::from_str("Failed encoding Ipv6Addr in Type AAAA record"),
                        ),
                    ),
                }
            },
            Rdata::CNAME(string) => Ok(encode_dns_name(string.as_str())),
            Rdata::SOA(rdata_soa) => rdata_soa.to_bytes(),
            Rdata::MX(rdata_mx) => rdata_mx.to_bytes(),
        }
    }

    /// Encode the whole record, as `spec_record_bytes` describes: RDATA too
    /// large for its 16-bit length field is an encode error.
    pub fn to_bytes(&self) -> (r: Result<Vec<u8>, DnsError>)
        requires
            name_encodable(self@.name),
            rdata_wf(self@.rdata),
        ensures
            match r {
                Ok(v) => spec_record_bytes(self@) == Some(v@),
                Err(e) => spec_record_bytes(self@) is None && e is EncodeError,
            },
    {
        let mut bytes = encode_dns_name(self.name.as_str());
        let t = self.get_type().to_u16();
        bytes.push((t / 256) as u8);
        bytes.push((t % 256) as u8);
        let c = self.class.to_u16();
        bytes.push((c / 256) as u8);
        bytes.push((c % 256) as u8);
        push_u32_be(&mut bytes, self.ttl);
        let mut data = self.data_to_bytes()?;
        if data.len() > 0xFFFF {
            return Err(DnsError::EncodeError(String::from_str("Data size exceeds u16 limit")));
        }
        let data_size = data.len() as u16;
        bytes.push((data_size / 256) as u8);
        bytes.push((data_size % 256) as u8);
        let ghost data0 = data@;
        bytes.append(&mut data);
        proof {
            assert(bytes@ =~= spec_record_bytes(self@).unwrap());
        }
        Ok(bytes)
    }
}

/// A name in the exact form the decoder produces: ASCII, labels of one to
/// 63 characters, at most 253 characters in all.
pub open spec fn name_canonical(n: Seq<char>) -> bool {
    vstd::utf8::is_ascii_chars(n) && valid_dns_name(n) && n.len() <= 253
}

/// RDATA in the exact form the decoder produces: a dotted-quad A address,
/// a canonical AAAA address, or well-formed names.
pub open spec fn rdata_canonical(r: RdataView) -> bool {
    match r {
        RdataView::A(s) => exists|a: u8, b: u8, c: u8, d: u8| s == ipv4_chars(a, b, c, d),
        RdataView::NS(n) => name_canonical(n),
        RdataView::CNAME(n) => name_canonical(n),
        RdataView::SOA(soa) => name_canonical(soa.mname) && name_canonical(soa.rname),
        RdataView::MX(mx) => name_canonical(mx.exchange),
        RdataView::AAAA(s) => exists|b16: Seq<u8>| b16.len() == 16 && s == ipv6_chars(b16),
    }
}

/// Canonical records always encode, and their RDATA stays small.
pub proof fn lemma_record_bytes_some(rec: RecordView)
    requires
        name_canonical(rec.name),
        rdata_canonical(rec.rdata),
    ensures
        rdata_bytes(rec.rdata) matches Some(db) && db.len() <= 0xFFFF,
        spec_record_bytes(rec) is Some,
{
    match rec.rdata {
        RdataView::A(s) => {
            let (a, b, c, d) = choose|a: u8, b: u8, c: u8, d: u8| s == ipv4_chars(a, b, c, d);
            lemma_ipv4_round_trip(a, b, c, d);
        },
        RdataView::NS(n) => {
            lemma_encoded_name_len(n);
        },
        RdataView::CNAME(n) => {
            lemma_encoded_name_len(n);
        },
        RdataView::SOA(soa) => {
            lemma_encoded_name_len(soa.mname);
            lemma_encoded_name_len(soa.rname);
        },
        RdataView::MX(mx) => {
            lemma_encoded_name_len(mx.exchange);
        },
        RdataView::AAAA(s) => {
            let b16 = choose|b16: Seq<u8>| b16.len() == 16 && s == ipv6_chars(b16);
            lemma_ipv6_round_trip(b16);
        },
    }
}

/// Parsing encoded SOA RDATA laid down at `pos`.
proof fn lemma_parse_soa_encoded(buf: Seq<u8>, pos: int, soa: SoaView)
    requires
        name_canonical(soa.mname),
        name_canonical(soa.rname),
        0 <= pos,
        rdata_bytes(RdataView::SOA(soa)) matches Some(db) && pos + db.len() <= buf.len()
            && buf.subrange(pos, pos + db.len()) == db,
    ensures
        spec_parse_soa(buf, pos) == Some(
            (soa, pos + rdata_bytes(RdataView::SOA(soa)).unwrap().len()),
        ),
{
    let db = rdata_bytes(RdataView::SOA(soa)).unwrap();
    let em = encoded_name(soa.mname);
    let er = encoded_name(soa.rname);
    lemma_encoded_name_len(soa.mname);
    lemma_encoded_name_len(soa.rname);
    assert(db =~= em + er + u32_be_bytes(soa.serial) + u32_be_bytes(soa.refresh) + u32_be_bytes(
        soa.retry,
    ) + u32_be_bytes(soa.expire));
    assert(visited_ok(Set::empty())) by {
        assert(Set::<int>::empty().subset_of(
            vstd::set_lib::set_int_range(0, crate::util::visited_bound()),
        ));
    }
    lemma_embedded_subrange(buf, pos, db, 0, em.len() as int);
    assert(db.subrange(0, em.len() as int) =~= em);
    assert(buf.subrange(pos, pos + em.len()) == em);
    lemma_decode_encoded_at(buf, pos, soa.mname, Set::empty());
    let q1 = pos + em.len();
    lemma_embedded_subrange(buf, pos, db, em.len() as int, em.len() as int + er.len());
    assert(db.subrange(em.len() as int, em.len() as int + er.len()) =~= er);
    assert(buf.subrange(q1, q1 + er.len()) == er);
    lemma_decode_encoded_at(buf, q1, soa.rname, Set::empty());
    let q2 = q1 + er.len();
    let ob: int = em.len() as int + er.len();
    assert forall|j: int| 0 <= j < db.len() implies buf[pos + j] == db[j] by {
        lemma_embedded_byte(buf, pos, db, j);
    }
    assert(db[ob + 0] == (soa.serial / 0x1000000) as u8);
    assert(db[ob + 1] == ((soa.serial / 0x10000) % 256) as u8);
    assert(db[ob + 2] == ((soa.serial / 0x100) % 256) as u8);
    assert(db[ob + 3] == (soa.serial % 256) as u8);
    assert(db[ob + 4] == (soa.refresh / 0x1000000) as u8);
    assert(db[ob + 5] == ((soa.refresh / 0x10000) % 256) as u8);
    assert(db[ob + 6] == ((soa.refresh / 0x100) % 256) as u8);
    assert(db[ob + 7] == (soa.refresh % 256) as u8);
    assert(db[ob + 8] == (soa.retry / 0x1000000) as u8);
    assert(db[ob + 9] == ((soa.retry / 0x10000) % 256) as u8);
    assert(db[ob + 10] == ((soa.retry / 0x100) % 256) as u8);
    assert(db[ob + 11] == (soa.retry % 256) as u8);
    assert(db[ob + 12] == (soa.expire / 0x1000000) as u8);
    assert(db[ob + 13] == ((soa.expire / 0x10000) % 256) as u8);
    assert(db[ob + 14] == ((soa.expire / 0x100) % 256) as u8);
    assert(db[ob + 15] == (soa.expire % 256) as u8);
    lemma_be32_round_trip(soa.serial);
    lemma_be32_round_trip(soa.refresh);
    lemma_be32_round_trip(soa.retry);
    lemma_be32_round_trip(soa.expire);
    assert(be32(buf[q2], buf[q2 + 1], buf[q2 + 2], buf[q2 + 3]) == soa.serial);
    assert(be32(buf[q2 + 4], buf[q2 + 5], buf[q2 + 6], buf[q2 + 7]) == soa.refresh);
    assert(be32(buf[q2 + 8], buf[q2 + 9], buf[q2 + 10], buf[q2 + 11]) == soa.retry);
    assert(be32(buf[q2 + 12], buf[q2 + 13], buf[q2 + 14], buf[q2 + 15]) == soa.expire);
    assert(spec_parse_soa(buf, pos) == Some::<(SoaView, int)>((soa, q2 + 16)));
}

/// Parsing encoded canonical RDATA (with its 16-bit length field) laid down
/// at `pos`.
proof fn lemma_parse_rdata_encoded(buf: Seq<u8>, pos: int, rdata: RdataView)
    requires
        rdata_canonical(rdata),
        0 <= pos,
        rdata_bytes(rdata) matches Some(db) && db.len() <= 0xFFFF && pos + 2 + db.len()
            <= buf.len() && buf[pos] == ((db.len() as u16) / 256) as u8 && buf[pos + 1] == ((
        db.len() as u16) % 256) as u8 && buf.subrange(pos + 2, pos + 2 + db.len()) == db,
    ensures
        spec_parse_rdata(buf, pos, rdata_type(rdata)) == Some(
            (rdata, pos + 2 + rdata_bytes(rdata).unwrap().len()),
        ),
{
    let db = rdata_bytes(rdata).unwrap();
    let dl = db.len() as u16;
    lemma_be16_round_trip(dl);
    assert(be16(buf[pos], buf[pos + 1]) == dl);
    let p3 = pos + 2;
    assert(visited_ok(Set::empty())) by {
        assert(Set::<int>::empty().subset_of(
            vstd::set_lib::set_int_range(0, crate::util::visited_bound()),
        ));
    }
    match rdata {
        RdataView::A(s) => {
            let (a, b, c, d) = choose|a: u8, b: u8, c: u8, d: u8| s == ipv4_chars(a, b, c, d);
            lemma_ipv4_round_trip(a, b, c, d);
            assert(db =~= seq![a, b, c, d]);
            assert(buf[p3] == a && buf[p3 + 1] == b && buf[p3 + 2] == c && buf[p3 + 3] == d) by {
                assert(buf.subrange(p3, p3 + db.len())[0] == buf[p3]);
                assert(buf.subrange(p3, p3 + db.len())[1] == buf[p3 + 1]);
                assert(buf.subrange(p3, p3 + db.len())[2] == buf[p3 + 2]);
                assert(buf.subrange(p3, p3 + db.len())[3] == buf[p3 + 3]);
            }
            assert(spec_parse_rdata(buf, pos, Type::A) == Some::<(RdataView, int)>(
                (RdataView::A(ipv4_chars(a, b, c, d)), p3 + 4),
            ));
        },
        RdataView::NS(n) => {
            lemma_encoded_name_len(n);
            lemma_decode_encoded_at(buf, p3, n, Set::empty());
        },
        RdataView::CNAME(n) => {
            lemma_encoded_name_len(n);
            lemma_decode_encoded_at(buf, p3, n, Set::empty());
        },
        RdataView::SOA(soa) => {
            lemma_parse_soa_encoded(buf, p3, soa);
        },
        RdataView::MX(mx) => {
            let ee = encoded_name(mx.exchange);
            lemma_encoded_name_len(mx.exchange);
            assert(db =~= u16_be_bytes(mx.preference) + ee);
            assert forall|j: int| 0 <= j < db.len() implies buf[p3 + j] == db[j] by {
                lemma_embedded_byte(buf, p3, db, j);
            }
            lemma_be16_round_trip(mx.preference);
            assert(db[0] == (mx.preference / 256) as u8 && db[1] == (mx.preference % 256) as u8);
            assert(be16(buf[p3], buf[p3 + 1]) == mx.preference);
            lemma_embedded_subrange(buf, p3, db, 2, db.len() as int);
            assert(db.subrange(2, db.len() as int) =~= ee);
            assert(buf.subrange(p3 + 2, p3 + 2 + ee.len()) == ee);
            lemma_decode_encoded_at(buf, p3 + 2, mx.exchange, Set::empty());
            assert(spec_parse_mx(buf, p3) == Some::<(MxView, int)>((mx, p3 + 2 + ee.len())));
        },
        RdataView::AAAA(s) => {
            let b16 = choose|b16: Seq<u8>| b16.len() == 16 && s == ipv6_chars(b16);
            lemma_ipv6_round_trip(b16);
            assert(db == b16);
            assert(buf.subrange(p3, p3 + 16) == b16);
            assert(spec_parse_rdata(buf, pos, Type::AAAA) == Some::<(RdataView, int)>(
                (RdataView::AAAA(ipv6_chars(b16)), p3 + 16),
            ));
        },
    }
}

/// Parsing a canonical record's encoding laid down at `pos` in a larger
/// buffer yields the record and ends just past its bytes.
pub proof fn lemma_parse_record_encoded(buf: Seq<u8>, pos: int, rec: RecordView)
    requires
        name_canonical(rec.name),
        rdata_canonical(rec.rdata),
        0 <= pos,
        spec_record_bytes(rec) matches Some(rb) && pos + rb.len() <= buf.len() && buf.subrange(
            pos,
            pos + rb.len(),
        ) == rb,
    ensures
        spec_parse_record(buf, pos) matches Some(p) && p.0 == rec && p.1 == pos
            + spec_record_bytes(rec).unwrap().len(),
{
    lemma_record_bytes_some(rec);
    let rb = spec_record_bytes(rec).unwrap();
    let en = encoded_name(rec.name);
    let db = rdata_bytes(rec.rdata).unwrap();
    let tc = type_code(rdata_type(rec.rdata));
    let cc = class_code(rec.class);
    let dl = db.len() as u16;
    let nl = en.len() as int;
    assert(rb =~= en + u16_be_bytes(tc) + u16_be_bytes(cc) + u32_be_bytes(rec.ttl)
        + u16_be_bytes(dl) + db);
    assert(visited_ok(Set::empty())) by {
        assert(Set::<int>::empty().subset_of(
            vstd::set_lib::set_int_range(0, crate::util::visited_bound()),
        ));
    }
    // the owner name
    lemma_embedded_subrange(buf, pos, rb, 0, nl);
    assert(rb.subrange(0, nl) =~= en);
    assert(buf.subrange(pos, pos + nl) == en);
    lemma_decode_encoded_at(buf, pos, rec.name, Set::empty());
    let p1 = pos + nl;
    // type, class, ttl, RDATA length
    assert forall|k: int| 0 <= k < rb.len() implies buf[pos + k] == rb[k] by {
        lemma_embedded_byte(buf, pos, rb, k);
    }
    assert(rb[nl] == (tc / 256) as u8 && rb[nl + 1] == (tc % 256) as u8);
    lemma_be16_round_trip(tc);
    assert(be16(buf[p1], buf[p1 + 1]) == tc);
    lemma_type_code_round_trip(rdata_type(rec.rdata));
    assert(rb[nl + 2] == (cc / 256) as u8 && rb[nl + 3] == (cc % 256) as u8);
    lemma_be16_round_trip(cc);
    assert(be16(buf[p1 + 2], buf[p1 + 3]) == cc);
    lemma_class_code_round_trip(rec.class);
    assert(rb[nl + 4] == (rec.ttl / 0x1000000) as u8 && rb[nl + 5] == ((rec.ttl / 0x10000)
        % 256) as u8 && rb[nl + 6] == ((rec.ttl / 0x100) % 256) as u8 && rb[nl + 7] == (rec.ttl
        % 256) as u8);
    lemma_be32_round_trip(rec.ttl);
    assert(be32(buf[p1 + 4], buf[p1 + 5], buf[p1 + 6], buf[p1 + 7]) == rec.ttl);
    let p2 = p1 + 8;
    assert(rb[nl + 8] == (dl / 256) as u8 && rb[nl + 9] == (dl % 256) as u8);
    assert(buf[p2] == (dl / 256) as u8 && buf[p2 + 1] == (dl % 256) as u8);
    let off: int = nl + 10;
    assert(rb.len() == off + db.len());
    lemma_embedded_subrange(buf, pos, rb, off, rb.len() as int);
    assert(rb.subrange(off, rb.len() as int) =~= db);
    assert(buf.subrange(p2 + 2, p2 + 2 + db.len()) == db);
    lemma_parse_rdata_encoded(buf, p2, rec.rdata);
    assert(spec_parse_record(buf, pos) matches Some(p) && p.0 == rec && p.1 == pos + rb.len());
}

/// Encoding a canonical record and decoding the bytes yields the record
/// again, for every supported record kind.
pub proof fn lemma_record_round_trip(rec: RecordView)
    requires
        name_canonical(rec.name),
        rdata_canonical(rec.rdata),
    ensures
        spec_record_bytes(rec) matches Some(rb) && spec_parse_record(rb, 0) == Some(
            (rec, rb.len() as int),
        ),
{
    lemma_record_bytes_some(rec);
    let rb = spec_record_bytes(rec).unwrap();
    assert(rb.subrange(0, rb.len() as int) =~= rb);
    lemma_parse_record_encoded(rb, 0, rec);
}

} // verus!
