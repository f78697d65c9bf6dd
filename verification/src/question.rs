//! The DNS question: a domain name, a record type and a class. Questions are
//! the cache key and the payload of a query.

use vstd::prelude::*;

use crate::cursor::{be16, lemma_be16_round_trip, u16_be_bytes, Cursor};
use crate::error::DnsError;
use crate::rr_fields::{
    class_code, class_from_code, lemma_class_code_round_trip, lemma_type_code_round_trip,
    type_code, type_from_code, Class, Type,
};
use crate::util::{
    encode_dns_name, encode_ok, encoded_name, lemma_decode_encoded_at, lemma_embedded_byte,
    lemma_embedded_subrange, spec_decode_name, valid_dns_name, visited_ok,
};

verus! {

/// A question triple.
#[derive(Debug, PartialEq, Hash, Eq, Clone)]
pub struct DnsQuestion {
    pub name: String,
    pub qtype: Type,
    pub class: Class,
}

/// The mathematical view of a question: the name as its characters.
pub ghost struct QuestionView {
    pub name: Seq<char>,
    pub qtype: Type,
    pub class: Class,
}

impl View for DnsQuestion {
    type V = QuestionView;

    open spec fn view(&self) -> QuestionView {
        QuestionView { name: self.name@, qtype: self.qtype, class: self.class }
    }
}

/// The wire encoding of a question: the encoded name, then the type and
/// class codes, big-endian.
pub open spec fn question_bytes(q: QuestionView) -> Seq<u8> {
    encoded_name(q.name) + u16_be_bytes(type_code(q.qtype)) + u16_be_bytes(class_code(q.class))
}

/// The question read from `buf` at `pos`, and the position just past it:
/// a decoded name followed by known type and class codes.
pub open spec fn spec_parse_question(buf: Seq<u8>, pos: int) -> Option<(QuestionView, int)> {
    match spec_decode_name(buf, pos, Set::empty()) {
        None => None,
        Some((name, p)) => {
            if p + 4 > buf.len() {
                None
            } else {
                match type_from_code(be16(buf[p], buf[p + 1])) {
                    None => None,
                    Some(t) => match class_from_code(be16(buf[p + 2], buf[p + 3])) {
                        None => None,
                        Some(c) => Some((QuestionView { name, qtype: t, class: c }, p + 4)),
                    },
                }
            }
        },
    }
}

impl DnsQuestion {
    /// A copy with the same view.
    pub fn duplicate(&self) -> (q: DnsQuestion)
        ensures
            q@ == self@,
    {
        DnsQuestion { name: self.name.clone(), qtype: self.qtype, class: self.class }
    }

    /// A question for the given name, type and class.
    pub fn new(domain_name: &str, record_type: Type, class: Class) -> (q: DnsQuestion)
        ensures
            q@.name == domain_name@,
            q@.qtype == record_type,
            q@.class == class,
    {
        DnsQuestion { name: String::from_str(domain_name), qtype: record_type, class }
    }

    /// Encode the question. The name must be ASCII with labels of at most
    /// 63 characters; anything else is the caller's programming error.
    pub fn to_bytes(&self) -> (r: Vec<u8>)
        requires
            vstd::utf8::is_ascii_chars(self@.name),
            encode_ok(self@.name),
        ensures
            r@ == question_bytes(self@),
    {
        let mut bytes = encode_dns_name(self.name.as_str());
        bytes.push((self.qtype.to_u16() / 256) as u8);
        bytes.push((self.qtype.to_u16() % 256) as u8);
        bytes.push((self.class.to_u16() / 256) as u8);
        bytes.push((self.class.to_u16() % 256) as u8);
        proof {
            assert(bytes@ =~= question_bytes(self@));
        }
        bytes
    }

    /// Decode a question from the cursor: a name, then the type and class
    /// codes, both of which must be known.
    pub fn from_bytes(reader: &mut Cursor) -> (r: Result<DnsQuestion, DnsError>)
        ensures
            final(reader)@ == old(reader)@,
            match r {
                Ok(q) => spec_parse_question(old(reader)@, old(reader).spec_pos()) matches Some(p)
                    && q@ == p.0 && final(reader).spec_pos() == p.1,
                Err(e) => spec_parse_question(old(reader)@, old(reader).spec_pos()) is None && (
                e is DecodeError),
            },
    {
        let name = crate::util::decode_dns_name(reader)?;
        let qtype_raw = match reader.read_u16_be() {
            Some(x) => x,
            None => {
                return Err(
                    DnsError::DecodeError(String::from_str("Failed to decode DNS question")),
                );
            },
        };
        let qtype = Type::try_from(qtype_raw)?;
        let class_raw = match reader.read_u16_be() {
            Some(x) => x,
            None => {
                return Err(
                    DnsError::DecodeError(String::from_str("Failed to decode DNS question")),
                );
            },
        };
        let class = Class::try_from(class_raw)?;
        Ok(DnsQuestion { name, qtype, class })
    }
}

/// Parsing a question's encoding laid down at `pos` in a larger buffer
/// yields the question and ends just past its bytes.
pub proof fn lemma_parse_question_encoded(buf: Seq<u8>, pos: int, q: QuestionView)
    requires
        vstd::utf8::is_ascii_chars(q.name),
        valid_dns_name(q.name),
        0 <= pos,
        pos + question_bytes(q).len() <= buf.len(),
        buf.subrange(pos, pos + question_bytes(q).len()) == question_bytes(q),
    ensures
        spec_parse_question(buf, pos) == Some((q, pos + question_bytes(q).len())),
{
    let qb = question_bytes(q);
    let en = encoded_name(q.name);
    let tc = type_code(q.qtype);
    let cc = class_code(q.class);
    let nl = en.len() as int;
    assert(qb =~= en + u16_be_bytes(tc) + u16_be_bytes(cc));
    assert(visited_ok(Set::empty())) by {
        assert(Set::<int>::empty().subset_of(
            vstd::set_lib::set_int_range(0, crate::util::visited_bound()),
        ));
    }
    lemma_embedded_subrange(buf, pos, qb, 0, nl);
    assert(qb.subrange(0, nl) =~= en);
    assert(buf.subrange(pos, pos + nl) == en);
    lemma_decode_encoded_at(buf, pos, q.name, Set::empty());
    let p1 = pos + nl;
    assert forall|k: int| 0 <= k < qb.len() implies buf[pos + k] == qb[k] by {
        lemma_embedded_byte(buf, pos, qb, k);
    }
    assert(qb[nl] == (tc / 256) as u8 && qb[nl + 1] == (tc % 256) as u8);
    lemma_be16_round_trip(tc);
    assert(be16(buf[p1], buf[p1 + 1]) == tc);
    lemma_type_code_round_trip(q.qtype);
    assert(qb[nl + 2] == (cc / 256) as u8 && qb[nl + 3] == (cc % 256) as u8);
    lemma_be16_round_trip(cc);
    assert(be16(buf[p1 + 2], buf[p1 + 3]) == cc);
    lemma_class_code_round_trip(q.class);
}

/// Encoding a well-formed question and decoding the bytes yields the
/// question again.
pub proof fn lemma_question_round_trip(q: QuestionView)
    requires
        vstd::utf8::is_ascii_chars(q.name),
        valid_dns_name(q.name),
    ensures
        spec_parse_question(question_bytes(q), 0) == Some(
            (q, question_bytes(q).len() as int),
        ),
{
    assert(question_bytes(q).subrange(0, question_bytes(q).len() as int) =~= question_bytes(q));
    lemma_parse_question_encoded(question_bytes(q), 0, q);
}

} // verus!
