//! Whole DNS messages: a header and four sections. The header's counters
//! drive parsing; the answer-selection helpers feed the resolver; the error
//! response builder maps an error kind to its RCODE.

use vstd::prelude::*;

use crate::cursor::Cursor;
use crate::error::DnsError;
use crate::header::{header_bytes, lemma_parse_header_at, parse_header, DnsHeader};
use crate::question::{
    lemma_parse_question_encoded, question_bytes, spec_parse_question, DnsQuestion, QuestionView,
};
use crate::record::{
    lemma_parse_record_encoded, lemma_record_bytes_some, name_canonical, name_encodable,
    rdata_canonical, rdata_wf, spec_parse_record, spec_record_bytes, DnsRecord, Rdata, RdataView,
    RecordView,
};
use crate::util::{lemma_embedded_subrange, valid_dns_name};

verus! {

broadcast use crate::cursor::lemma_cursor_pos_nonneg;

/// A DNS message.
#[derive(Debug, PartialEq, Clone)]
pub struct DnsPacket {
    pub header: DnsHeader,
    pub questions: Vec<DnsQuestion>,
    pub answers: Vec<DnsRecord>,
    pub authorities: Vec<DnsRecord>,
    pub additionals: Vec<DnsRecord>,
}

/// The mathematical view of a message.
pub ghost struct PacketView {
    pub header: DnsHeader,
    pub questions: Seq<QuestionView>,
    pub answers: Seq<RecordView>,
    pub authorities: Seq<RecordView>,
    pub additionals: Seq<RecordView>,
}

impl View for DnsPacket {
    type V = PacketView;

    open spec fn view(&self) -> PacketView {
        PacketView {
            header: self.header,
            questions: self.questions@.map_values(|q: DnsQuestion| q@),
            answers: self.answers@.map_values(|r: DnsRecord| r@),
            authorities: self.authorities@.map_values(|r: DnsRecord| r@),
            additionals: self.additionals@.map_values(|r: DnsRecord| r@),
        }
    }
}

/// A record whose names the encoder accepts.
pub open spec fn record_wf(r: RecordView) -> bool {
    name_encodable(r.name) && rdata_wf(r.rdata)
}

/// A packet whose questions and records the encoder accepts.
pub open spec fn packet_wf(p: PacketView) -> bool {
    &&& forall|i: int|
        0 <= i < p.questions.len() ==> name_encodable(#[trigger] p.questions[i].name)
    &&& forall|i: int| 0 <= i < p.answers.len() ==> record_wf(#[trigger] p.answers[i])
    &&& forall|i: int| 0 <= i < p.authorities.len() ==> record_wf(#[trigger] p.authorities[i])
    &&& forall|i: int| 0 <= i < p.additionals.len() ==> record_wf(#[trigger] p.additionals[i])
}

/// The concatenated wire encodings of a question sequence.
pub open spec fn questions_bytes(qs: Seq<QuestionView>) -> Seq<u8>
    decreases qs.len(),
{
    if qs.len() == 0 {
        Seq::empty()
    } else {
        question_bytes(qs[0]) + questions_bytes(qs.drop_first())
    }
}

/// The concatenated wire encodings of a record sequence, or nothing if any
/// record does not encode.
pub open spec fn records_bytes(rs: Seq<RecordView>) -> Option<Seq<u8>>
    decreases rs.len(),
{
    if rs.len() == 0 {
        Some(Seq::empty())
    } else {
        match (spec_record_bytes(rs[0]), records_bytes(rs.drop_first())) {
            (Some(h), Some(t)) => Some(h + t),
            _ => None,
        }
    }
}

/// Appending a question appends its bytes.
proof fn lemma_questions_bytes_push(qs: Seq<QuestionView>, x: QuestionView)
    ensures
        questions_bytes(qs.push(x)) == questions_bytes(qs) + question_bytes(x),
    decreases qs.len(),
{
    if qs.len() == 0 {
        assert(qs.push(x) =~= seq![x]);
        assert(qs.push(x).drop_first() =~= Seq::<QuestionView>::empty());
        assert(questions_bytes(Seq::<QuestionView>::empty()) == Seq::<u8>::empty());
        assert(questions_bytes(qs.push(x)) =~= questions_bytes(qs) + question_bytes(x));
    } else {
        assert(qs.push(x).drop_first() =~= qs.drop_first().push(x));
        lemma_questions_bytes_push(qs.drop_first(), x);
        assert(questions_bytes(qs.push(x)) =~= questions_bytes(qs) + question_bytes(x));
    }
}

/// Appending a record appends its bytes (or poisons the encoding).
proof fn lemma_records_bytes_push(rs: Seq<RecordView>, x: RecordView)
    ensures
        records_bytes(rs.push(x)) == (match (records_bytes(rs), spec_record_bytes(x)) {
            (Some(a), Some(b)) => Some(a + b),
            _ => None::<Seq<u8>>,
        }),
    decreases rs.len(),
{
    if rs.len() == 0 {
        assert(rs.push(x) =~= seq![x]);
        assert(rs.push(x).drop_first() =~= Seq::<RecordView>::empty());
        assert(records_bytes(Seq::<RecordView>::empty()) == Some(Seq::<u8>::empty()));
        if let Some(b) = spec_record_bytes(x) {
            assert(records_bytes(rs.push(x)) =~= Some(Seq::<u8>::empty() + b));
            assert(Seq::<u8>::empty() + b =~= b);
            assert(records_bytes(rs).unwrap() + b =~= b);
        }
    } else {
        assert(rs.push(x).drop_first() =~= rs.drop_first().push(x));
        lemma_records_bytes_push(rs.drop_first(), x);
        if records_bytes(rs) is Some && spec_record_bytes(x) is Some {
            assert((spec_record_bytes(rs[0]).unwrap() + (records_bytes(rs.drop_first()).unwrap()
                + spec_record_bytes(x).unwrap())) =~= (records_bytes(rs).unwrap()
                + spec_record_bytes(x).unwrap()));
        }
    }
}

/// The full wire encoding of a packet: the header as it stands, then each
/// section's elements in order. Nothing if some record does not encode.
pub open spec fn spec_packet_bytes(p: PacketView) -> Option<Seq<u8>> {
    match (records_bytes(p.answers), records_bytes(p.authorities), records_bytes(
        p.additionals,
    )) {
        (Some(a), Some(au), Some(ad)) => Some(
            header_bytes(p.header) + questions_bytes(p.questions) + a + au + ad,
        ),
        _ => None,
    }
}

/// `n` questions read in sequence from `buf` at `pos`.
pub open spec fn spec_parse_questions(buf: Seq<u8>, pos: int, n: int) -> Option<
    (Seq<QuestionView>, int),
>
    decreases n,
{
    if n <= 0 {
        Some((Seq::empty(), pos))
    } else {
        match spec_parse_question(buf, pos) {
            None => None,
            Some((q, p)) => match spec_parse_questions(buf, p, n - 1) {
                None => None,
                Some((qs, e)) => Some((seq![q] + qs, e)),
            },
        }
    }
}

/// `n` records read in sequence from `buf` at `pos`.
pub open spec fn spec_parse_records(buf: Seq<u8>, pos: int, n: int) -> Option<
    (Seq<RecordView>, int),
>
    decreases n,
{
    if n <= 0 {
        Some((Seq::empty(), pos))
    } else {
        match spec_parse_record(buf, pos) {
            None => None,
            Some((r, p)) => match spec_parse_records(buf, p, n - 1) {
                None => None,
                Some((rs, e)) => Some((seq![r] + rs, e)),
            },
        }
    }
}

/// The packet parsed from a whole buffer: a header whose counters say how
/// many questions and records follow, in order.
pub open spec fn spec_parse_packet(buf: Seq<u8>) -> Option<PacketView> {
    if buf.len() < 12 {
        None
    } else {
        let h = parse_header(buf, 0);
        match spec_parse_questions(buf, 12, h.num_questions as int) {
            None => None,
            Some((qs, p1)) => match spec_parse_records(buf, p1, h.num_answers as int) {
                None => None,
                Some((ans, p2)) => match spec_parse_records(buf, p2, h.num_authorities as int) {
                    None => None,
                    Some((auth, p3)) => match spec_parse_records(
                        buf,
                        p3,
                        h.num_additionals as int,
                    ) {
                        None => None,
                        Some((add, _)) => Some(
                            PacketView {
                                header: h,
                                questions: qs,
                                answers: ans,
                                authorities: auth,
                                additionals: add,
                            },
                        ),
                    },
                },
            },
        }
    }
}

/// An answer variant the resolver can act on.
pub open spec fn usable_answer(r: RdataView) -> bool {
    match r {
        RdataView::A(_) => true,
        RdataView::CNAME(_) => true,
        RdataView::AAAA(_) => true,
        RdataView::MX(_) => true,
        _ => false,
    }
}

/// The first record in the sequence whose RDATA is usable.
pub open spec fn first_usable_answer(rs: Seq<RecordView>) -> Option<RecordView>
    decreases rs.len(),
{
    if rs.len() == 0 {
        None
    } else if usable_answer(rs[0].rdata) {
        Some(rs[0])
    } else {
        first_usable_answer(rs.drop_first())
    }
}

/// The address string of the first A record in the sequence.
pub open spec fn first_a_data(rs: Seq<RecordView>) -> Option<Seq<char>>
    decreases rs.len(),
{
    if rs.len() == 0 {
        None
    } else if rs[0].rdata is A {
        Some(rs[0].rdata->A_0)
    } else {
        first_a_data(rs.drop_first())
    }
}

/// The name of the first NS record in the sequence.
pub open spec fn first_ns_data(rs: Seq<RecordView>) -> Option<Seq<char>>
    decreases rs.len(),
{
    if rs.len() == 0 {
        None
    } else if rs[0].rdata is NS {
        Some(rs[0].rdata->NS_0)
    } else {
        first_ns_data(rs.drop_first())
    }
}

/// Parse `n` questions from the cursor.
#[verifier::loop_isolation(false)]
fn parse_questions(reader: &mut Cursor, n: u16) -> (r: Result<Vec<DnsQuestion>, DnsError>)
    ensures
        final(reader)@ == old(reader)@,
        match r {
            Ok(v) => spec_parse_questions(old(reader)@, old(reader).spec_pos(), n as int)
                matches Some(p) && v@.map_values(|q: DnsQuestion| q@) == p.0 && final(reader).spec_pos() == p.1,
            Err(e) => spec_parse_questions(old(reader)@, old(reader).spec_pos(), n as int) is None
                && e is DecodeError,
        },
{
    let ghost buf = reader@;
    let ghost pos0 = reader.spec_pos();
    let mut v: Vec<DnsQuestion> = Vec::new();
    let mut i: u16 = 0;
    while i < n
        invariant
            reader@ == buf,
            i <= n,
            v@.len() == i as int,
            spec_parse_questions(buf, pos0, n as int) == (match spec_parse_questions(
                buf,
                reader.spec_pos(),
                n - i,
            ) {
                Some(p) => Some::<(Seq<QuestionView>, int)>(
                    (v@.map_values(|q: DnsQuestion| q@) + p.0, p.1),
                ),
                None => None::<(Seq<QuestionView>, int)>,
            }),
        decreases n - i,
    {
        let ghost vs = v@.map_values(|q: DnsQuestion| q@);
        let q = DnsQuestion::from_bytes(reader)?;
        let ghost qv = q@;
        v.push(q);
        proof {
            assert(v@.map_values(|q: DnsQuestion| q@) =~= vs.push(qv));
            assert forall|rest: Seq<QuestionView>| true implies (vs.push(qv) + rest) =~= (vs + (
            seq![qv] + rest)) by {}
        }
        i = i + 1;
    }
    proof {
        assert(v@.map_values(|q: DnsQuestion| q@) + Seq::<QuestionView>::empty() =~= v@.map_values(
            |q: DnsQuestion| q@,
        ));
    }
    Ok(v)
}

/// Parse `n` records from the cursor.
#[verifier::loop_isolation(false)]
fn parse_records(reader: &mut Cursor, n: u16) -> (r: Result<Vec<DnsRecord>, DnsError>)
    ensures
        final(reader)@ == old(reader)@,
        match r {
            Ok(v) => spec_parse_records(old(reader)@, old(reader).spec_pos(), n as int)
                matches Some(p) && v@.map_values(|rec: DnsRecord| rec@) == p.0 && final(reader).spec_pos() == p.1,
            Err(e) => spec_parse_records(old(reader)@, old(reader).spec_pos(), n as int) is None
                && (e is DecodeError || e is NotImplementedError),
        },
{
    let ghost buf = reader@;
    let ghost pos0 = reader.spec_pos();
    let mut v: Vec<DnsRecord> = Vec::new();
    let mut i: u16 = 0;
    while i < n
        invariant
            reader@ == buf,
            i <= n,
            v@.len() == i as int,
            spec_parse_records(buf, pos0, n as int) == (match spec_parse_records(
                buf,
                reader.spec_pos(),
                n - i,
            ) {
                Some(p) => Some::<(Seq<RecordView>, int)>(
                    (v@.map_values(|rec: DnsRecord| rec@) + p.0, p.1),
                ),
                None => None::<(Seq<RecordView>, int)>,
            }),
        decreases n - i,
    {
        let ghost vs = v@.map_values(|rec: DnsRecord| rec@);
        let rec = DnsRecord::from_bytes(reader)?;
        let ghost rv = rec@;
        v.push(rec);
        proof {
            assert(v@.map_values(|rec: DnsRecord| rec@) =~= vs.push(rv));
            assert forall|rest: Seq<RecordView>| true implies (vs.push(rv) + rest) =~= (vs + (
            seq![rv] + rest)) by {}
        }
        i = i + 1;
    }
    proof {
        assert(v@.map_values(|rec: DnsRecord| rec@) + Seq::<RecordView>::empty() =~= v@.map_values(
            |rec: DnsRecord| rec@,
        ));
    }
    Ok(v)
}

impl DnsPacket {
    /// Parse a whole message: the header, then as many questions, answers,
    /// authorities and additionals as its counters say, from one cursor.
    pub fn from_bytes(buf: &[u8]) -> (r: Result<DnsPacket, DnsError>)
        ensures
            match r {
                Ok(p) => spec_parse_packet(buf@) == Some(p@),
                Err(e) => spec_parse_packet(buf@) is None && (e is DecodeError
                    || e is NotImplementedError),
            },
    {
        let mut reader = Cursor::new(buf);
        let header = DnsHeader::from_bytes(&mut reader)?;
        let questions = parse_questions(&mut reader, header.num_questions)?;
        let answers = parse_records(&mut reader, header.num_answers)?;
        let authorities = parse_records(&mut reader, header.num_authorities)?;
        let additionals = parse_records(&mut reader, header.num_additionals)?;
        Ok(DnsPacket { header, questions, answers, authorities, additionals })
    }

    /// Encode the whole message, as `spec_packet_bytes` describes. The
    /// header is written as it stands; the caller keeps its counters equal
    /// to the section lengths.
    pub fn to_bytes(self) -> (r: Result<Vec<u8>, DnsError>)
        requires
            packet_wf(self@),
        ensures
            match r {
                Ok(v) => spec_packet_bytes(self@) == Some(v@),
                Err(e) => spec_packet_bytes(self@) is None && e is EncodeError,
            },
    {
        let ghost pv = self@;
        let mut bytes = match self.header.to_bytes() {
            Ok(v) => v,
            Err(e) => {
                return Err(e);
            },
        };
        let mut i: usize = 0;
        while i < self.questions.len()
            invariant
                packet_wf(pv),
                pv == self@,
                i <= self.questions@.len(),
                bytes@ == header_bytes(pv.header) + questions_bytes(pv.questions.take(i as int)),
            decreases self.questions@.len() - i,
        {
            let mut qb = self.questions[i].to_bytes();
            bytes.append(&mut qb);
            proof {
                lemma_questions_bytes_push(pv.questions.take(i as int), pv.questions[i as int]);
                assert(pv.questions.take(i + 1) =~= pv.questions.take(i as int).push(
                    pv.questions[i as int],
                ));
                assert(bytes@ =~= header_bytes(pv.header) + questions_bytes(
                    pv.questions.take(i + 1),
                ));
            }
            i = i + 1;
        }
        proof {
            assert(pv.questions.take(pv.questions.len() as int) =~= pv.questions);
        }
        proof {
            assert forall|k: int| 0 <= k < self.answers@.len() implies #[trigger] record_wf(
                self.answers@[k]@,
            ) by {
                assert(pv.answers[k] == self.answers@[k]@);
            }
            assert forall|k: int| 0 <= k < self.authorities@.len() implies #[trigger] record_wf(
                self.authorities@[k]@,
            ) by {
                assert(pv.authorities[k] == self.authorities@[k]@);
            }
            assert forall|k: int| 0 <= k < self.additionals@.len() implies #[trigger] record_wf(
                self.additionals@[k]@,
            ) by {
                assert(pv.additionals[k] == self.additionals@[k]@);
            }
        }
        let answers_bytes = Self::section_to_bytes(&self.answers)?;
        let authorities_bytes = Self::section_to_bytes(&self.authorities)?;
        let additionals_bytes = Self::section_to_bytes(&self.additionals)?;
        let mut ab = answers_bytes;
        bytes.append(&mut ab);
        let mut aub = authorities_bytes;
        bytes.append(&mut aub);
        let mut adb = additionals_bytes;
        bytes.append(&mut adb);
        proof {
            assert(bytes@ =~= spec_packet_bytes(pv).unwrap());
        }
        Ok(bytes)
    }

    /// Encode one record section, as `records_bytes` describes.
    fn section_to_bytes(records: &Vec<DnsRecord>) -> (r: Result<Vec<u8>, DnsError>)
        requires
            forall|i: int| 0 <= i < records@.len() ==> #[trigger] record_wf(records@[i]@),
        ensures
            match r {
                Ok(v) => records_bytes(records@.map_values(|rec: DnsRecord| rec@)) == Some(v@),
                Err(e) => records_bytes(records@.map_values(|rec: DnsRecord| rec@)) is None
                    && e is EncodeError,
            },
    {
        let ghost rvs = records@.map_values(|rec: DnsRecord| rec@);
        let mut bytes: Vec<u8> = Vec::new();
        let mut i: usize = 0;
        while i < records.len()
            invariant
                rvs == records@.map_values(|rec: DnsRecord| rec@),
                forall|k: int| 0 <= k < records@.len() ==> #[trigger] record_wf(records@[k]@),
                i <= records@.len(),
                records_bytes(rvs.take(i as int)) == Some(bytes@),
            decreases records@.len() - i,
        {
            proof {
                assert(record_wf(records@[i as int]@));
            }
            let mut rb = match records[i].to_bytes() {
                Ok(v) => v,
                Err(e) => {
                    proof {
                        lemma_records_bytes_none(rvs, i as int);
                    }
                    return Err(e);
                },
            };
            bytes.append(&mut rb);
            proof {
                lemma_records_bytes_push(rvs.take(i as int), rvs[i as int]);
                assert(rvs.take(i + 1) =~= rvs.take(i as int).push(rvs[i as int]));
            }
            i = i + 1;
        }
        proof {
            assert(rvs.take(rvs.len() as int) =~= rvs);
        }
        Ok(bytes)
    }

    /// The first answer the resolver can act on: an A, CNAME, AAAA or MX
    /// record, in section order.
    pub fn get_answer(&self) -> (r: Option<&DnsRecord>)
        ensures
            match r {
                Some(rec) => first_usable_answer(self@.answers) == Some(rec@),
                None => first_usable_answer(self@.answers) is None,
            },
    {
        let ghost avs = self@.answers;
        proof {
            assert(avs.skip(0) =~= avs);
        }
        let mut i: usize = 0;
        while i < self.answers.len()
            invariant
                avs == self@.answers,
                i <= avs.len(),
                first_usable_answer(avs) == first_usable_answer(avs.skip(i as int)),
            decreases avs.len() - i,
        {
            proof {
                assert(avs.skip(i as int).drop_first() =~= avs.skip(i + 1));
                assert(avs.skip(i as int)[0] == avs[i as int]);
            }
            match &self.answers[i].rdata {
                Rdata::A(_) | Rdata::CNAME(_) | Rdata::AAAA(_) | Rdata::MX(_) => {
                    return Some(&self.answers[i]);
                },
                _ => {},
            }
            i = i + 1;
        }
        proof {
            assert(avs.skip(avs.len() as int) =~= Seq::<RecordView>::empty());
        }
        None
    }

    /// The address of the first A record among the additionals: the glue
    /// for a referral.
    pub fn get_nameserver_ip(&self) -> (r: Option<&str>)
        ensures
            match r {
                Some(s) => first_a_data(self@.additionals) == Some(s@),
                None => first_a_data(self@.additionals) is None,
            },
    {
        let ghost avs = self@.additionals;
        proof {
            assert(avs.skip(0) =~= avs);
        }
        let mut i: usize = 0;
        while i < self.additionals.len()
            invariant
                avs == self@.additionals,
                i <= avs.len(),
                first_a_data(avs) == first_a_data(avs.skip(i as int)),
            decreases avs.len() - i,
        {
            proof {
                assert(avs.skip(i as int).drop_first() =~= avs.skip(i + 1));
                assert(avs.skip(i as int)[0] == avs[i as int]);
            }
            if let Rdata::A(string) = &self.additionals[i].rdata {
                return Some(string.as_str());
            }
            i = i + 1;
        }
        proof {
            assert(avs.skip(avs.len() as int) =~= Seq::<RecordView>::empty());
        }
        None
    }

    /// The name of the first NS record among the authorities: a referral
    /// without glue.
    pub fn get_nameserver(&self) -> (r: Option<&str>)
        ensures
            match r {
                Some(s) => first_ns_data(self@.authorities) == Some(s@),
                None => first_ns_data(self@.authorities) is None,
            },
    {
        let ghost avs = self@.authorities;
        proof {
            assert(avs.skip(0) =~= avs);
        }
        let mut i: usize = 0;
        while i < self.authorities.len()
            invariant
                avs == self@.authorities,
                i <= avs.len(),
                first_ns_data(avs) == first_ns_data(avs.skip(i as int)),
            decreases avs.len() - i,
        {
            proof {
                assert(avs.skip(i as int).drop_first() =~= avs.skip(i + 1));
                assert(avs.skip(i as int)[0] == avs[i as int]);
            }
            if let Rdata::NS(string) = &self.authorities[i].rdata {
                return Some(string.as_str());
            }
            i = i + 1;
        }
        proof {
            assert(avs.skip(avs.len() as int) =~= Seq::<RecordView>::empty());
        }
        None
    }

    /// A query packet for one question: a fresh query header and no records.
    pub fn packet_from_question(question: DnsQuestion) -> (p: DnsPacket)
        ensures
            p@.questions =~= seq![question@],
            p@.answers =~= Seq::<RecordView>::empty(),
            p@.authorities =~= Seq::<RecordView>::empty(),
            p@.additionals =~= Seq::<RecordView>::empty(),
            p@.header.flags == 0,
            p@.header.num_questions == 1,
            p@.header.num_answers == 0,
            p@.header.num_authorities == 0,
            p@.header.num_additionals == 0,
    {
        let header = DnsHeader::simple_query_header();
        let mut questions: Vec<DnsQuestion> = Vec::new();
        questions.push(question);
        DnsPacket {
            header,
            questions,
            answers: Vec::new(),
            authorities: Vec::new(),
            additionals: Vec::new(),
        }
    }

    /// The wire bytes of a single-question query: a 12-byte header whose
    /// transaction id is random, whose flags word is zero (in particular
    /// recursion-desired is clear), whose question counter is one; then the
    /// question.
    pub fn build_query(question: &DnsQuestion) -> (r: Result<Vec<u8>, DnsError>)
        requires
            name_encodable(question@.name),
        ensures
            r matches Ok(v) && ({
                &&& v@.len() == 12 + question_bytes(question@).len()
                &&& v@.skip(12) == question_bytes(question@)
                &&& v@.subrange(2, 12) == seq![0u8, 0u8, 0u8, 1u8, 0u8, 0u8, 0u8, 0u8, 0u8, 0u8]
            }),
    {
        let header = DnsHeader::simple_query_header();
        let mut query_bytes = match header.to_bytes() {
            Ok(v) => v,
            Err(e) => {
                return Err(e);
            },
        };
        let mut qb = question.to_bytes();
        query_bytes.append(&mut qb);
        proof {
            assert(query_bytes@.skip(12) =~= question_bytes(question@));
            assert(query_bytes@.subrange(2, 12) =~= seq![
                0u8,
                0u8,
                0u8,
                1u8,
                0u8,
                0u8,
                0u8,
                0u8,
                0u8,
                0u8,
            ]);
        }
        Ok(query_bytes)
    }

    /// A response for a failed request: the same id and questions, the
    /// query-response bit set, the RCODE field holding exactly the error's
    /// code (not-implemented maps to 4, every other kind to 2, whatever the
    /// request's own RCODE bits were), and empty record sections with zero
    /// counters.
    pub fn make_error_response(self, err: DnsError) -> (r: DnsPacket)
        ensures
            r@.header.id == self@.header.id,
            r@.header.flags == (self@.header.flags & 0xFFF0u16) | 0x8000u16 | (
            if err.is_not_implemented() {
                4u16
            } else {
                2u16
            }),
            r@.header.flags & 0x8000u16 == 0x8000u16,
            r@.header.flags & 0x000fu16 == (if err.is_not_implemented() {
                4u16
            } else {
                2u16
            }),
            r@.header.num_questions == self@.header.num_questions,
            r@.header.num_answers == 0,
            r@.header.num_authorities == 0,
            r@.header.num_additionals == 0,
            r@.questions == self@.questions,
            r@.answers =~= Seq::<RecordView>::empty(),
            r@.authorities =~= Seq::<RecordView>::empty(),
            r@.additionals =~= Seq::<RecordView>::empty(),
    {
        let error_rcode: u16 = match err {
            DnsError::NotImplementedError(_) => 4,
            DnsError::CacheError(_) => 2,
            DnsError::ResolveError(_) => 2,
            DnsError::EncodeError(_) => 2,
            DnsError::NetworkError(_) => 2,
            DnsError::DecodeError(_) => 2,
        };
        let f = self.header.flags;
        let new_flags: u16 = (f & 0xFFF0) | 0x8000 | error_rcode;
        proof {
            let rc = error_rcode;
            assert(((f & 0xFFF0) | 0x8000 | rc) & 0x8000 == 0x8000) by (bit_vector);
            assert((rc == 2 || rc == 4) ==> (((f & 0xFFF0) | 0x8000 | rc) & 0x000f == rc))
                by (bit_vector);
        }
        let header = DnsHeader {
            id: self.header.id,
            flags: new_flags,
            num_questions: self.header.num_questions,
            num_answers: 0,
            num_authorities: 0,
            num_additionals: 0,
        };
        DnsPacket {
            header,
            questions: self.questions,
            answers: Vec::new(),
            authorities: Vec::new(),
            additionals: Vec::new(),
        }
    }
}

/// A section that holds a record that does not encode does not encode.
proof fn lemma_records_bytes_none(rs: Seq<RecordView>, i: int)
    requires
        0 <= i < rs.len(),
        spec_record_bytes(rs[i]) is None,
    ensures
        records_bytes(rs) is None,
    decreases rs.len(),
{
    if i > 0 {
        lemma_records_bytes_none(rs.drop_first(), i - 1);
    }
}

/// A record in the exact form the parser produces.
pub open spec fn record_canonical(r: RecordView) -> bool {
    name_canonical(r.name) && rdata_canonical(r.rdata)
}

/// A packet in the exact form the parser produces: counters equal to the
/// section lengths, well-formed question names, canonical records.
pub open spec fn packet_canonical(p: PacketView) -> bool {
    &&& p.header.num_questions == p.questions.len()
    &&& p.header.num_answers == p.answers.len()
    &&& p.header.num_authorities == p.authorities.len()
    &&& p.header.num_additionals == p.additionals.len()
    &&& forall|i: int|
        0 <= i < p.questions.len() ==> vstd::utf8::is_ascii_chars(
            (#[trigger] p.questions[i]).name,
        ) && valid_dns_name(p.questions[i].name)
    &&& forall|i: int| 0 <= i < p.answers.len() ==> record_canonical(#[trigger] p.answers[i])
    &&& forall|i: int|
        0 <= i < p.authorities.len() ==> record_canonical(#[trigger] p.authorities[i])
    &&& forall|i: int|
        0 <= i < p.additionals.len() ==> record_canonical(#[trigger] p.additionals[i])
}

/// A section of canonical records always encodes.
proof fn lemma_records_bytes_some(rs: Seq<RecordView>)
    requires
        forall|i: int| 0 <= i < rs.len() ==> record_canonical(#[trigger] rs[i]),
    ensures
        records_bytes(rs) is Some,
    decreases rs.len(),
{
    if rs.len() > 0 {
        lemma_record_bytes_some(rs[0]);
        assert forall|i: int| 0 <= i < rs.drop_first().len() implies record_canonical(
            #[trigger] rs.drop_first()[i],
        ) by {
            assert(rs.drop_first()[i] == rs[i + 1]);
        }
        lemma_records_bytes_some(rs.drop_first());
    }
}

/// Parsing the concatenated encodings of well-formed questions laid down at
/// `pos` yields the questions.
proof fn lemma_parse_questions_encoded(buf: Seq<u8>, pos: int, qs: Seq<QuestionView>)
    requires
        forall|i: int|
            0 <= i < qs.len() ==> vstd::utf8::is_ascii_chars((#[trigger] qs[i]).name)
                && valid_dns_name(qs[i].name),
        0 <= pos,
        pos + questions_bytes(qs).len() <= buf.len(),
        buf.subrange(pos, pos + questions_bytes(qs).len()) == questions_bytes(qs),
    ensures
        spec_parse_questions(buf, pos, qs.len() as int) == Some(
            (qs, pos + questions_bytes(qs).len()),
        ),
    decreases qs.len(),
{
    let sb = questions_bytes(qs);
    if qs.len() == 0 {
        assert(qs =~= Seq::<QuestionView>::empty());
    } else {
        let qb0 = question_bytes(qs[0]);
        let rest_b = questions_bytes(qs.drop_first());
        assert(sb == qb0 + rest_b);
        lemma_embedded_subrange(buf, pos, sb, 0, qb0.len() as int);
        assert(sb.subrange(0, qb0.len() as int) =~= qb0);
        assert(buf.subrange(pos, pos + qb0.len()) == qb0);
        lemma_parse_question_encoded(buf, pos, qs[0]);
        lemma_embedded_subrange(buf, pos, sb, qb0.len() as int, sb.len() as int);
        assert(sb.subrange(qb0.len() as int, sb.len() as int) =~= rest_b);
        assert(buf.subrange(pos + qb0.len(), pos + qb0.len() + rest_b.len()) == rest_b);
        assert forall|i: int| 0 <= i < qs.drop_first().len() implies vstd::utf8::is_ascii_chars(
            (#[trigger] qs.drop_first()[i]).name,
        ) && valid_dns_name(qs.drop_first()[i].name) by {
            assert(qs.drop_first()[i] == qs[i + 1]);
        }
        lemma_parse_questions_encoded(buf, pos + qb0.len(), qs.drop_first());
        assert(seq![qs[0]] + qs.drop_first() =~= qs);
    }
}

/// Parsing the concatenated encodings of canonical records laid down at
/// `pos` yields the records.
proof fn lemma_parse_records_encoded(buf: Seq<u8>, pos: int, rs: Seq<RecordView>)
    requires
        forall|i: int| 0 <= i < rs.len() ==> record_canonical(#[trigger] rs[i]),
        0 <= pos,
        records_bytes(rs) matches Some(sb) && pos + sb.len() <= buf.len() && buf.subrange(
            pos,
            pos + sb.len(),
        ) == sb,
    ensures
        spec_parse_records(buf, pos, rs.len() as int) == Some(
            (rs, pos + records_bytes(rs).unwrap().len()),
        ),
    decreases rs.len(),
{
    let sb = records_bytes(rs).unwrap();
    if rs.len() == 0 {
        assert(rs =~= Seq::<RecordView>::empty());
    } else {
        lemma_record_bytes_some(rs[0]);
        let rb0 = spec_record_bytes(rs[0]).unwrap();
        assert forall|i: int| 0 <= i < rs.drop_first().len() implies record_canonical(
            #[trigger] rs.drop_first()[i],
        ) by {
            assert(rs.drop_first()[i] == rs[i + 1]);
        }
        lemma_records_bytes_some(rs.drop_first());
        let rest_b = records_bytes(rs.drop_first()).unwrap();
        assert(sb == rb0 + rest_b);
        lemma_embedded_subrange(buf, pos, sb, 0, rb0.len() as int);
        assert(sb.subrange(0, rb0.len() as int) =~= rb0);
        assert(buf.subrange(pos, pos + rb0.len()) == rb0);
        lemma_parse_record_encoded(buf, pos, rs[0]);
        lemma_embedded_subrange(buf, pos, sb, rb0.len() as int, sb.len() as int);
        assert(sb.subrange(rb0.len() as int, sb.len() as int) =~= rest_b);
        assert(buf.subrange(pos + rb0.len(), pos + rb0.len() + rest_b.len()) == rest_b);
        lemma_parse_records_encoded(buf, pos + rb0.len(), rs.drop_first());
        assert(seq![rs[0]] + rs.drop_first() =~= rs);
    }
}

/// A canonical packet encodes, and its bytes are the header, questions and
/// sections in order.
proof fn lemma_packet_bytes_shape(p: PacketView)
    requires
        packet_canonical(p),
    ensures
        spec_packet_bytes(p) is Some,
        records_bytes(p.answers) is Some,
        records_bytes(p.authorities) is Some,
        records_bytes(p.additionals) is Some,
        spec_packet_bytes(p).unwrap() == header_bytes(p.header) + questions_bytes(p.questions)
            + records_bytes(p.answers).unwrap() + records_bytes(p.authorities).unwrap()
            + records_bytes(p.additionals).unwrap(),
{
    lemma_records_bytes_some(p.answers);
    lemma_records_bytes_some(p.authorities);
    lemma_records_bytes_some(p.additionals);
}

/// Slicing a five-way concatenation at the joins gives back its parts.
proof fn lemma_concat5_slices(a: Seq<u8>, b: Seq<u8>, c: Seq<u8>, d: Seq<u8>, e: Seq<u8>)
    ensures
        ({
            let s = a + b + c + d + e;
            let ob = a.len() as int;
            let oc = ob + b.len() as int;
            let od = oc + c.len() as int;
            let oe = od + d.len() as int;
            &&& s.len() == oe + e.len()
            &&& s.subrange(0, ob) == a
            &&& s.subrange(ob, oc) == b
            &&& s.subrange(oc, od) == c
            &&& s.subrange(od, oe) == d
            &&& s.subrange(oe, s.len() as int) == e
        }),
{
    let s = a + b + c + d + e;
    let ob = a.len() as int;
    let oc = ob + b.len() as int;
    let od = oc + c.len() as int;
    let oe = od + d.len() as int;
    assert(s.subrange(0, ob) =~= a);
    assert(s.subrange(ob, oc) =~= b);
    assert(s.subrange(oc, od) =~= c);
    assert(s.subrange(od, oe) =~= d);
    assert(s.subrange(oe, s.len() as int) =~= e);
}

/// Encoding a canonical packet and parsing the bytes yields the packet
/// again: the message codec round-trips.
#[verifier::rlimit(100)]
pub proof fn lemma_packet_round_trip(p: PacketView)
    requires
        packet_canonical(p),
    ensures
        spec_packet_bytes(p) matches Some(pb) && spec_parse_packet(pb) == Some(p),
{
    lemma_packet_bytes_shape(p);
    let pb = spec_packet_bytes(p).unwrap();
    let hb = header_bytes(p.header);
    let qb = questions_bytes(p.questions);
    let ab = records_bytes(p.answers).unwrap();
    let ub = records_bytes(p.authorities).unwrap();
    let db = records_bytes(p.additionals).unwrap();
    lemma_concat5_slices(hb, qb, ab, ub, db);
    let a_off: int = 12 + qb.len() as int;
    let u_off: int = a_off + ab.len() as int;
    let d_off: int = u_off + ub.len() as int;
    lemma_parse_header_at(pb, 0, p.header);
    lemma_parse_questions_encoded(pb, 12, p.questions);
    lemma_parse_records_encoded(pb, a_off, p.answers);
    lemma_parse_records_encoded(pb, u_off, p.authorities);
    lemma_parse_records_encoded(pb, d_off, p.additionals);
    assert(spec_parse_packet(pb) == Some(p));
}

} // verus!
