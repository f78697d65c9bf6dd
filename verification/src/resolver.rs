//! The decision core of the iterative resolver. Resolution alternates
//! between decisions (made here, verified) and UDP exchanges (performed by
//! the caller): each step either finishes with a response packet, asks the
//! caller to send one query and hand back the reply, or asks the caller to
//! resolve a name server's own address first. The caller drives the loop
//! and bounds the recursion depth of glue-less referrals.
//!
//! Outgoing queries never ask for recursion: the query header's flags word
//! is zero, this resolver walks the delegation tree itself.

use vstd::prelude::*;

use crate::cache::{cache_after_lookup, cache_answers_fold, cache_lookup, DnsCache, EntryView};
use crate::error::DnsError;
use crate::header::DnsHeader;
use crate::packet::{
    first_a_data, first_ns_data, first_usable_answer, DnsPacket, PacketView,
};
use crate::question::{DnsQuestion, QuestionView};
use crate::record::{rdata_type, DnsRecord, Rdata, RdataView, RecordView};
use crate::rr_fields::{Class, Type};

verus! {

/// The iterative resolver: a shared answer cache and a blocklist of exact
/// domain names.
pub struct Resolver {
    pub cache: DnsCache,
    pub blocklist: Vec<String>,
}

/// An in-flight resolution: the client's header and question, the name
/// currently being chased (it moves along CNAME chains), the name server
/// currently being asked, and the answers collected so far.
pub struct ResolveSession {
    header: DnsHeader,
    question: DnsQuestion,
    name: String,
    nameserver: String,
    answers: Vec<DnsRecord>,
    depth: u32,
}

/// How many glue-less referrals one resolution may follow before it is
/// treated as a referral loop.
pub const MAX_REFERRAL_DEPTH: u32 = 16;

/// The mathematical view of a session.
pub ghost struct SessionView {
    pub header: DnsHeader,
    pub question: QuestionView,
    pub name: Seq<char>,
    pub nameserver: Seq<char>,
    pub answers: Seq<RecordView>,
    pub depth: u32,
}

impl View for ResolveSession {
    type V = SessionView;

    closed spec fn view(&self) -> SessionView {
        SessionView {
            header: self.header,
            question: self.question@,
            name: self.name@,
            nameserver: self.nameserver@,
            answers: self.answers@.map_values(|r: DnsRecord| r@),
            depth: self.depth,
        }
    }
}

impl ResolveSession {
    /// The number of glue-less referrals this resolution may still follow.
    pub fn depth(&self) -> (d: u32)
        ensures
            d == self@.depth,
    {
        self.depth
    }
}

/// What the resolver asks of its caller next.
pub enum ResolveStep {
    /// The response to send back to the client.
    Done(DnsPacket),
    /// Send this question to this name server over UDP and hand the decoded
    /// reply to `resolve_response`.
    SendQuery(ResolveSession, String, DnsQuestion),
    /// Resolve this name server's own address (an A query from the root)
    /// and hand the address to `resolve_ns_ip`.
    ResolveNs(ResolveSession, String),
}

/// Membership in the blocklist, by exact name.
pub open spec fn blocklisted(bl: Seq<Seq<char>>, name: Seq<char>) -> bool {
    exists|i: int| 0 <= i < bl.len() && bl[i] == name
}

/// The answer synthesized for a blocklisted name: the unspecified address,
/// cached for half a day.
pub open spec fn block_record(q: QuestionView) -> RecordView {
    RecordView { name: q.name, class: Class::CLASS_IN, ttl: 43200, rdata: RdataView::A("0.0.0.0"@) }
}

/// A response packet for the client: the request's id, the query-response
/// bit set, exactly the request's question, and the collected answers.
pub open spec fn response_matches(
    p: PacketView,
    header: DnsHeader,
    question: QuestionView,
    answers: Seq<RecordView>,
) -> bool {
    &&& answers.len() <= 0xFFFF
    &&& p.header == (DnsHeader {
        id: header.id,
        flags: (header.flags & 0xFFF0) | 0x8000,
        num_questions: 1,
        num_answers: answers.len() as u16,
        num_authorities: 0,
        num_additionals: 0,
    })
    &&& p.header.flags & 0x8000u16 == 0x8000u16
    &&& p.header.flags & 0x000fu16 == 0u16
    &&& p.questions == seq![question]
    &&& p.answers == answers
    &&& p.authorities == Seq::<RecordView>::empty()
    &&& p.additionals == Seq::<RecordView>::empty()
}

/// The resolver's next move when chasing `name` with `ns` as the current
/// name server: a cache hit finishes with a response built from the
/// collected answers (evicting a lapsed entry counts as a miss), a miss
/// hands the caller one query to send. No upstream query is issued on a
/// hit.
pub open spec fn continue_outcome(
    r: Result<ResolveStep, DnsError>,
    cache0: Map<QuestionView, EntryView>,
    cache1: Map<QuestionView, EntryView>,
    header: DnsHeader,
    question: QuestionView,
    name: Seq<char>,
    ns: Seq<char>,
    depth: u32,
    answers: Seq<RecordView>,
    now: u64,
) -> bool {
    let cq = QuestionView { name: name, qtype: question.qtype, class: Class::CLASS_IN };
    &&& cache1 == cache_after_lookup(cache0, cq, now)
    &&& match cache_lookup(cache0, cq, now) {
        Some(rec) => {
            if answers.len() + 1 <= 0xFFFF {
                r matches Ok(ResolveStep::Done(p)) && response_matches(
                    p@,
                    header,
                    question,
                    answers.push(rec),
                )
            } else {
                r matches Err(e) && e is ResolveError
            }
        },
        None => r matches Ok(ResolveStep::SendQuery(s2, ns2, q2)) && ns2@ == ns && q2@ == cq
            && s2@.header == header && s2@.question == question && s2@.name == name
            && s2@.nameserver == ns && s2@.depth == depth && s2@.answers == answers,
    }
}

impl Resolver {
    /// The cache's one-row-per-question shape.
    pub open spec fn wf(&self) -> bool {
        self.cache.wf()
    }

    /// The blocklist as a set of names.
    pub open spec fn blocklist_view(&self) -> Seq<Seq<char>> {
        self.blocklist@.map_values(|s: String| s@)
    }

    /// A resolver with an empty cache and the given blocklist.
    pub fn new(blocklist: Vec<String>) -> (r: Resolver)
        ensures
            r.wf(),
            r.cache@ == Map::<QuestionView, EntryView>::empty(),
            r.blocklist_view() == blocklist@.map_values(|s: String| s@),
    {
        Resolver { cache: DnsCache::new(), blocklist }
    }

    /// Whether the exact name stands in the blocklist.
    #[verifier::loop_isolation(false)]
    fn blocklist_contains(&self, name: &String) -> (r: bool)
        ensures
            r == blocklisted(self.blocklist_view(), name@),
    {
        let mut i: usize = 0;
        while i < self.blocklist.len()
            invariant
                i <= self.blocklist@.len(),
                forall|k: int| 0 <= k < i ==> self.blocklist_view()[k] != name@,
            decreases self.blocklist@.len() - i,
        {
            if self.blocklist[i] == *name {
                proof {
                    assert(self.blocklist_view()[i as int] == name@);
                }
                return true;
            }
            i = i + 1;
        }
        false
    }

    /// A response packet carrying the collected answers under the client's
    /// header and question; more answers than the 16-bit counter can hold
    /// is a resolve error.
    pub fn build_response(header: DnsHeader, question: &DnsQuestion, answers: Vec<DnsRecord>) -> (r:
        Result<DnsPacket, DnsError>)
        ensures
            match r {
                Ok(p) => response_matches(
                    p@,
                    header,
                    question@,
                    answers@.map_values(|rec: DnsRecord| rec@),
                ),
                Err(e) => answers@.len() > 0xFFFF && e is ResolveError,
            },
    {
        if answers.len() > 0xFFFF {
            return Err(
                DnsError::ResolveError(String::from_str("Number of answers exceeds u16 limit")),
            );
        }
        let num_answers = answers.len() as u16;
        let f = header.flags;
        let response_flags: u16 = (f & 0xFFF0) | 0x8000;
        proof {
            assert(((f & 0xFFF0) | 0x8000) & 0x8000 == 0x8000) by (bit_vector);
            assert(((f & 0xFFF0) | 0x8000) & 0x000f == 0) by (bit_vector);
        }
        let response_header = DnsHeader {
            id: header.id,
            flags: response_flags,
            num_questions: 1,
            num_answers,
            num_authorities: 0,
            num_additionals: 0,
        };
        let mut questions: Vec<DnsQuestion> = Vec::new();
        questions.push(question.duplicate());
        let p = DnsPacket {
            header: response_header,
            questions,
            answers,
            authorities: Vec::new(),
            additionals: Vec::new(),
        };
        proof {
            assert(p@.questions =~= seq![question@]);
            assert(p@.authorities =~= Seq::<RecordView>::empty());
            assert(p@.additionals =~= Seq::<RecordView>::empty());
        }
        Ok(p)
    }

    /// Ask the cache about the session's current name; a hit finishes, a
    /// miss hands the caller one query for the session's name server.
    fn step_from(&mut self, session: ResolveSession, now: u64) -> (r: Result<
        ResolveStep,
        DnsError,
    >)
        requires
            old(self).wf(),
        ensures
            final(self).wf(),
            final(self).blocklist_view() == old(self).blocklist_view(),
            continue_outcome(
                r,
                old(self).cache@,
                final(self).cache@,
                session@.header,
                session@.question,
                session@.name,
                session@.nameserver,
                session@.depth,
                session@.answers,
                now,
            ),
    {
        let cq = DnsQuestion::new(session.name.as_str(), session.question.qtype, Class::CLASS_IN);
        match self.cache.lookup(&cq, now) {
            Some(rec) => {
                let ghost rec_view = rec@;
                let ResolveSession { header, question, name: _, nameserver: _, answers, depth: _ }
                    = session;
                let mut answers2 = answers;
                let ghost answers0 = answers2@.map_values(|r: DnsRecord| r@);
                answers2.push(rec);
                proof {
                    assert(answers2@.map_values(|r: DnsRecord| r@) =~= answers0.push(rec_view));
                }
                match Self::build_response(header, &question, answers2) {
                    Ok(p) => Ok(ResolveStep::Done(p)),
                    Err(e) => Err(e),
                }
            },
            None => {
                let ns = session.nameserver.clone();
                Ok(ResolveStep::SendQuery(session, ns, cq))
            },
        }
    }

    /// Begin resolving a client request at instant `now`, with a budget of
    /// `depth` glue-less referrals. A request with other than exactly one
    /// question is rejected; a blocklisted name is answered at once with
    /// the unspecified address; a cached answer is returned without any
    /// upstream query; otherwise the caller is asked to query the root name
    /// server.
    pub fn resolve_start(&mut self, query_packet: &DnsPacket, depth: u32, now: u64) -> (r: Result<
        ResolveStep,
        DnsError,
    >)
        requires
            old(self).wf(),
        ensures
            final(self).wf(),
            final(self).blocklist_view() == old(self).blocklist_view(),
            query_packet@.questions.len() != 1 ==> (r matches Err(e) && e is ResolveError
                && final(self).cache@ == old(self).cache@),
            query_packet@.questions.len() == 1 ==> ({
                let q = query_packet@.questions[0];
                if blocklisted(old(self).blocklist_view(), q.name) {
                    &&& final(self).cache@ == old(self).cache@
                    &&& r matches Ok(ResolveStep::Done(p)) && response_matches(
                        p@,
                        query_packet@.header,
                        q,
                        seq![block_record(q)],
                    )
                } else {
                    continue_outcome(
                        r,
                        old(self).cache@,
                        final(self).cache@,
                        query_packet@.header,
                        q,
                        q.name,
                        "198.41.0.4"@,
                        depth,
                        Seq::<RecordView>::empty(),
                        now,
                    )
                }
            }),
    {
        if query_packet.questions.len() != 1 {
            return Err(
                DnsError::ResolveError(
                    String::from_str("Invalid request: expected exactly one question"),
                ),
            );
        }
        let orig_question = &query_packet.questions[0];
        proof {
            assert(orig_question@ == query_packet@.questions[0]);
        }
        if self.blocklist_contains(&orig_question.name) {
            let loopback_record = DnsRecord {
                name: orig_question.name.clone(),
                class: Class::CLASS_IN,
                ttl: 43200,
                rdata: Rdata::A(String::from_str("0.0.0.0")),
            };
            let mut answers: Vec<DnsRecord> = Vec::new();
            answers.push(loopback_record);
            proof {
                assert(answers@.map_values(|rec: DnsRecord| rec@) =~= seq![
                    block_record(query_packet@.questions[0]),
                ]);
            }
            let p = Self::build_response(query_packet.header, orig_question, answers)?;
            return Ok(ResolveStep::Done(p));
        }
        let session = ResolveSession {
            header: query_packet.header,
            question: orig_question.duplicate(),
            name: orig_question.name.clone(),
            nameserver: String::from_str("198.41.0.4"),
            answers: Vec::new(),
            depth,
        };
        proof {
            assert(session@.answers =~= Seq::<RecordView>::empty());
        }
        self.step_from(session, now)
    }

    /// Act on an upstream response at instant `now`. Every cacheable answer
    /// is stored first. A usable A or MX answer (or an AAAA answer when
    /// AAAA was asked) finishes; a CNAME answer moves the chase to its
    /// target, asking the same name server; glue moves to the glued name
    /// server; a glue-less NS referral asks the caller to resolve that name
    /// server's address; anything else is a resolve error.
    pub fn resolve_response(
        &mut self,
        session: ResolveSession,
        response: &DnsPacket,
        now: u64,
    ) -> (r: Result<ResolveStep, DnsError>)
        requires
            old(self).wf(),
        ensures
            final(self).wf(),
            final(self).blocklist_view() == old(self).blocklist_view(),
            ({
                let fold = cache_answers_fold(old(self).cache@, response@.answers, now);
                &&& !fold.1 ==> (r matches Err(e) && e is CacheError && final(self).cache@
                    == fold.0)
                &&& fold.1 ==> (match first_usable_answer(response@.answers) {
                    Some(ans) => {
                        if ans.rdata is CNAME {
                            continue_outcome(
                                r,
                                fold.0,
                                final(self).cache@,
                                session@.header,
                                session@.question,
                                ans.rdata->CNAME_0,
                                session@.nameserver,
                                session@.depth,
                                session@.answers.push(ans),
                                now,
                            )
                        } else if ans.rdata is A || ans.rdata is MX || (ans.rdata is AAAA
                            && session@.question.qtype == Type::AAAA) {
                            &&& final(self).cache@ == fold.0
                            &&& if session@.answers.len() + 1 <= 0xFFFF {
                                r matches Ok(ResolveStep::Done(p)) && response_matches(
                                    p@,
                                    session@.header,
                                    session@.question,
                                    session@.answers.push(ans),
                                )
                            } else {
                                r matches Err(e) && e is ResolveError
                            }
                        } else {
                            final(self).cache@ == fold.0 && (r matches Err(e)
                                && e is ResolveError)
                        }
                    },
                    None => match first_a_data(response@.additionals) {
                        Some(glue_ip) => continue_outcome(
                            r,
                            fold.0,
                            final(self).cache@,
                            session@.header,
                            session@.question,
                            session@.name,
                            glue_ip,
                            session@.depth,
                            session@.answers,
                            now,
                        ),
                        None => match first_ns_data(response@.authorities) {
                            Some(ns_name) => final(self).cache@ == fold.0 && (
                            if session@.depth == 0 {
                                r matches Err(e) && e is ResolveError
                            } else {
                                r matches Ok(ResolveStep::ResolveNs(s2, d)) && d@ == ns_name
                                    && s2@.header == session@.header && s2@.question
                                    == session@.question && s2@.name == session@.name
                                    && s2@.nameserver == session@.nameserver && s2@.answers
                                    == session@.answers && s2@.depth == session@.depth - 1
                            }),
                            None => final(self).cache@ == fold.0 && (r matches Err(e)
                                && e is ResolveError),
                        },
                    },
                })
            }),
    {
        self.cache.cache_answers(response, now)?;
        match response.get_answer() {
            Some(answer) => {
                match &answer.rdata {
                    Rdata::CNAME(target) => {
                        let mut s = session;
                        let ghost answers0 = s@.answers;
                        let new_name = target.clone();
                        let dup = answer.duplicate();
                        let ghost dup_view = dup@;
                        s.answers.push(dup);
                        s.name = new_name;
                        proof {
                            assert(s@.answers =~= answers0.push(dup_view));
                        }
                        self.step_from(s, now)
                    },
                    Rdata::A(_) | Rdata::MX(_) => {
                        let dup = answer.duplicate();
                        let ghost dup_view = dup@;
                        let ResolveSession {
                            header,
                            question,
                            name: _,
                            nameserver: _,
                            answers,
                            depth: _,
                        } = session;
                        let mut answers2 = answers;
                        let ghost answers0 = answers2@.map_values(|r: DnsRecord| r@);
                        answers2.push(dup);
                        proof {
                            assert(answers2@.map_values(|r: DnsRecord| r@) =~= answers0.push(
                                dup_view,
                            ));
                        }
                        match Self::build_response(header, &question, answers2) {
                            Ok(p) => Ok(ResolveStep::Done(p)),
                            Err(e) => Err(e),
                        }
                    },
                    Rdata::AAAA(_) => {
                        if session.question.qtype == Type::AAAA {
                            let dup = answer.duplicate();
                            let ghost dup_view = dup@;
                            let ResolveSession {
                                header,
                                question,
                                name: _,
                                nameserver: _,
                                answers,
                                depth: _,
                            } = session;
                            let mut answers2 = answers;
                            let ghost answers0 = answers2@.map_values(|r: DnsRecord| r@);
                            answers2.push(dup);
                            proof {
                                assert(answers2@.map_values(|r: DnsRecord| r@) =~= answers0.push(
                                    dup_view,
                                ));
                            }
                            match Self::build_response(header, &question, answers2) {
                                Ok(p) => Ok(ResolveStep::Done(p)),
                                Err(e) => Err(e),
                            }
                        } else {
                            Err(
                                DnsError::ResolveError(
                                    String::from_str("Unexpected answer type"),
                                ),
                            )
                        }
                    },
                    _ => Err(DnsError::ResolveError(String::from_str("Unexpected answer type"))),
                }
            },
            None => {
                if let Some(ns_ip) = response.get_nameserver_ip() {
                    let ns_string = String::from_str(ns_ip);
                    let mut s = session;
                    s.nameserver = ns_string;
                    self.step_from(s, now)
                } else if let Some(ns_domain) = response.get_nameserver() {
                    if session.depth == 0 {
                        return Err(
                            DnsError::ResolveError(
                                String::from_str(
                                    "Maximum name server referral depth exceeded",
                                ),
                            ),
                        );
                    }
                    let d = String::from_str(ns_domain);
                    let mut s = session;
                    s.depth = s.depth - 1;
                    Ok(ResolveStep::ResolveNs(s, d))
                } else {
                    Err(DnsError::ResolveError(String::from_str("Unexpected response")))
                }
            },
        }
    }

    /// Act on the resolved address of a glue-less name server: the chase
    /// continues there, after the usual cache check.
    pub fn resolve_ns_ip(&mut self, session: ResolveSession, ip: String, now: u64) -> (r: Result<
        ResolveStep,
        DnsError,
    >)
        requires
            old(self).wf(),
        ensures
            final(self).wf(),
            final(self).blocklist_view() == old(self).blocklist_view(),
            continue_outcome(
                r,
                old(self).cache@,
                final(self).cache@,
                session@.header,
                session@.question,
                session@.name,
                ip@,
                session@.depth,
                session@.answers,
                now,
            ),
    {
        let mut s = session;
        s.nameserver = ip;
        self.step_from(s, now)
    }
}

/// The string value of the first answer of the requested type whose RDATA
/// is an address or a name: an A or AAAA address, or a CNAME target.
pub open spec fn first_answer_string(rs: Seq<RecordView>, t: Type) -> Option<Seq<char>>
    decreases rs.len(),
{
    if rs.len() == 0 {
        None
    } else {
        let r0 = rs[0];
        if rdata_type(r0.rdata) == t && r0.rdata is A {
            Some(r0.rdata->A_0)
        } else if rdata_type(r0.rdata) == t && r0.rdata is AAAA {
            Some(r0.rdata->AAAA_0)
        } else if rdata_type(r0.rdata) == t && r0.rdata is CNAME {
            Some(r0.rdata->CNAME_0)
        } else {
            first_answer_string(rs.drop_first(), t)
        }
    }
}

impl Resolver {
    /// The string form of the first answer of the requested type in a
    /// response: the dotted quad of an A record, the colon form of an AAAA
    /// record, or the target of a CNAME record. A response without one is a
    /// resolve error.
    #[verifier::loop_isolation(false)]
    pub fn extract_answer(response: &DnsPacket, record_type: Type) -> (r: Result<
        String,
        DnsError,
    >)
        ensures
            match r {
                Ok(s) => first_answer_string(response@.answers, record_type) == Some(s@),
                Err(e) => first_answer_string(response@.answers, record_type) is None
                    && e is ResolveError,
            },
    {
        let ghost avs = response@.answers;
        proof {
            assert(avs.skip(0) =~= avs);
        }
        let mut i: usize = 0;
        while i < response.answers.len()
            invariant
                avs == response@.answers,
                i <= avs.len(),
                first_answer_string(avs, record_type) == first_answer_string(
                    avs.skip(i as int),
                    record_type,
                ),
            decreases avs.len() - i,
        {
            proof {
                assert(avs.skip(i as int).drop_first() =~= avs.skip(i + 1));
                assert(avs.skip(i as int)[0] == avs[i as int]);
            }
            let answer = &response.answers[i];
            let matches_type = answer.get_type() == record_type;
            if matches_type {
                match &answer.rdata {
                    Rdata::A(string) => {
                        return Ok(string.clone());
                    },
                    Rdata::AAAA(string) => {
                        return Ok(string.clone());
                    },
                    Rdata::CNAME(string) => {
                        return Ok(string.clone());
                    },
                    _ => {},
                }
            }
            i = i + 1;
        }
        proof {
            assert(avs.skip(avs.len() as int) =~= Seq::<RecordView>::empty());
        }
        Err(
            DnsError::ResolveError(
                String::from_str("No valid answer returned for requested type"),
            ),
        )
    }
}

} // verus!
