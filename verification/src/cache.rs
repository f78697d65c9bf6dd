//! The answer cache: one entry per question, each with an absolute expiry
//! instant. Time is an explicit argument, a count of seconds; the caller
//! samples its clock and passes it in, so every temporal property here is
//! proved rather than measured. Expiry is sampled lazily: looking up an
//! expired entry evicts it and reports a miss.

use vstd::prelude::*;

use crate::error::DnsError;
use crate::packet::DnsPacket;
use crate::question::{DnsQuestion, QuestionView};
use crate::record::{rdata_type, record_question, DnsRecord, RecordView};
use crate::rr_fields::Type;

verus! {

/// A cache row: the record and the instant at which it lapses.
pub struct DnsCacheEntry {
    pub record: DnsRecord,
    expires: u64,
}

/// The mathematical view of a cache row.
pub ghost struct EntryView {
    pub record: RecordView,
    pub expires: u64,
}

impl View for DnsCacheEntry {
    type V = EntryView;

    closed spec fn view(&self) -> EntryView {
        EntryView { record: self.record@, expires: self.expires }
    }
}

impl DnsCacheEntry {
    /// A row expiring `record.ttl` seconds after `now`. An expiry instant
    /// past the end of the clock's range is a cache error, and nothing is
    /// stored.
    pub fn new(record: DnsRecord, now: u64) -> (r: Result<DnsCacheEntry, DnsError>)
        ensures
            match r {
                Ok(e) => now + record@.ttl <= u64::MAX && e@.record == record@ && e@.expires == now
                    + record@.ttl,
                Err(err) => now + record@.ttl > u64::MAX && err is CacheError,
            },
    {
        let ttl64 = record.ttl as u64;
        if now <= u64::MAX - ttl64 {
            Ok(DnsCacheEntry { record, expires: now + ttl64 })
        } else {
            Err(
                DnsError::CacheError(
                    String::from_str("Failed to create expiration time for cache record"),
                ),
            )
        }
    }

    /// Whether the row has lapsed at instant `now`.
    pub fn expired(&self, now: u64) -> (r: bool)
        ensures
            r == (now >= self@.expires),
    {
        now >= self.expires
    }
}

/// The map held by an entry list: later rows override earlier ones (the
/// cache keeps its keys distinct, so order never actually matters).
pub open spec fn entries_map(s: Seq<(DnsQuestion, DnsCacheEntry)>) -> Map<
    QuestionView,
    EntryView,
>
    decreases s.len(),
{
    if s.len() == 0 {
        Map::empty()
    } else {
        entries_map(s.drop_last()).insert(s.last().0@, s.last().1@)
    }
}

/// Pairwise-distinct keys.
pub open spec fn distinct_keys(s: Seq<(DnsQuestion, DnsCacheEntry)>) -> bool {
    forall|i: int, j: int| 0 <= i < j < s.len() ==> (#[trigger] s[i]).0@ != (#[trigger] s[j]).0@
}

/// A key present in the list is in the map, bound to that row's entry.
proof fn lemma_entries_map_index(s: Seq<(DnsQuestion, DnsCacheEntry)>, i: int)
    requires
        distinct_keys(s),
        0 <= i < s.len(),
    ensures
        entries_map(s).dom().contains(s[i].0@),
        entries_map(s)[s[i].0@] == s[i].1@,
    decreases s.len(),
{
    if i == s.len() - 1 {
        assert(s.last() == s[i]);
    } else {
        assert(distinct_keys(s.drop_last())) by {
            assert(forall|a: int, b: int|
                0 <= a < b < s.drop_last().len() ==> s.drop_last()[a] == s[a] && s.drop_last()[b]
                    == s[b]);
        }
        assert(s.drop_last()[i] == s[i]);
        lemma_entries_map_index(s.drop_last(), i);
        assert(s[i].0@ != s.last().0@);
    }
}

/// A key absent from the list is absent from the map.
proof fn lemma_entries_map_absent(s: Seq<(DnsQuestion, DnsCacheEntry)>, k: QuestionView)
    requires
        forall|i: int| 0 <= i < s.len() ==> (#[trigger] s[i]).0@ != k,
    ensures
        !entries_map(s).dom().contains(k),
    decreases s.len(),
{
    if s.len() > 0 {
        assert(forall|i: int|
            0 <= i < s.drop_last().len() ==> s.drop_last()[i] == s[i]);
        lemma_entries_map_absent(s.drop_last(), k);
        assert(s.last() == s[s.len() - 1]);
    }
}

/// Appending a row inserts its binding.
proof fn lemma_entries_map_push(s: Seq<(DnsQuestion, DnsCacheEntry)>, p: (DnsQuestion, DnsCacheEntry))
    ensures
        entries_map(s.push(p)) == entries_map(s).insert(p.0@, p.1@),
        distinct_keys(s) && (forall|i: int| 0 <= i < s.len() ==> (#[trigger] s[i]).0@ != p.0@)
            ==> distinct_keys(s.push(p)),
{
    assert(s.push(p).drop_last() =~= s);
    assert(s.push(p).last() == p);
    if distinct_keys(s) && (forall|i: int| 0 <= i < s.len() ==> (#[trigger] s[i]).0@ != p.0@) {
        assert forall|a: int, b: int| 0 <= a < b < s.push(p).len() implies (#[trigger] s.push(
            p,
        )[a]).0@ != (#[trigger] s.push(p)[b]).0@ by {
            if b == s.len() {
                assert(s.push(p)[a] == s[a]);
                assert(s.push(p)[b] == p);
            } else {
                assert(s.push(p)[a] == s[a]);
                assert(s.push(p)[b] == s[b]);
            }
        }
    }
}

/// Removing the row that holds a key removes that key's binding.
proof fn lemma_entries_map_remove(s: Seq<(DnsQuestion, DnsCacheEntry)>, i: int)
    requires
        distinct_keys(s),
        0 <= i < s.len(),
    ensures
        entries_map(s.remove(i)) == entries_map(s).remove(s[i].0@),
        distinct_keys(s.remove(i)),
    decreases s.len(),
{
    let k = s[i].0@;
    assert forall|a: int, b: int| 0 <= a < b < s.remove(i).len() implies (#[trigger] s.remove(
        i,
    )[a]).0@ != (#[trigger] s.remove(i)[b]).0@ by {
        let a2: int = if a < i {
            a
        } else {
            a + 1
        };
        let b2: int = if b < i {
            b
        } else {
            b + 1
        };
        assert(s.remove(i)[a] == s[a2]);
        assert(s.remove(i)[b] == s[b2]);
    }
    if i == s.len() - 1 {
        assert(s.remove(i) =~= s.drop_last());
        assert(forall|a: int| 0 <= a < s.len() - 1 ==> (#[trigger] s[a]).0@ != k);
        assert(forall|a: int|
            0 <= a < s.drop_last().len() ==> s.drop_last()[a] == s[a]);
        lemma_entries_map_absent(s.drop_last(), k);
        assert(entries_map(s) == entries_map(s.drop_last()).insert(k, s.last().1@));
        assert(entries_map(s).remove(k) =~= entries_map(s.drop_last()));
    } else {
        assert(distinct_keys(s.drop_last())) by {
            assert(forall|a: int, b: int|
                0 <= a < b < s.drop_last().len() ==> s.drop_last()[a] == s[a] && s.drop_last()[b]
                    == s[b]);
        }
        assert(s.drop_last()[i] == s[i]);
        lemma_entries_map_remove(s.drop_last(), i);
        assert(s.remove(i).drop_last() =~= s.drop_last().remove(i));
        assert(s.remove(i).last() == s.last());
        let lastk = s.last().0@;
        let lastv = s.last().1@;
        assert(lastk != k) by {
            assert(s[i].0@ != s[s.len() - 1].0@);
            assert(s.last() == s[s.len() - 1]);
        }
        assert(entries_map(s.remove(i)) == entries_map(s.drop_last()).remove(k).insert(
            lastk,
            lastv,
        ));
        assert(entries_map(s).remove(k) == entries_map(s.drop_last()).insert(lastk, lastv).remove(
            k,
        ));
        assert(entries_map(s.drop_last()).remove(k).insert(lastk, lastv) =~= entries_map(
            s.drop_last(),
        ).insert(lastk, lastv).remove(k));
    }
}

/// A list with distinct keys maps exactly as many questions as it has rows.
proof fn lemma_entries_map_len(s: Seq<(DnsQuestion, DnsCacheEntry)>)
    requires
        distinct_keys(s),
    ensures
        entries_map(s).dom().len() == s.len(),
        entries_map(s).dom().finite(),
    decreases s.len(),
{
    if s.len() == 0 {
        assert(entries_map(s).dom() =~= Set::<QuestionView>::empty());
    } else {
        assert(distinct_keys(s.drop_last())) by {
            assert(forall|a: int, b: int|
                0 <= a < b < s.drop_last().len() ==> s.drop_last()[a] == s[a] && s.drop_last()[b]
                    == s[b]);
        }
        lemma_entries_map_len(s.drop_last());
        assert(forall|a: int|
            0 <= a < s.drop_last().len() ==> (#[trigger] s.drop_last()[a]) == s[a]);
        assert(forall|a: int| 0 <= a < s.len() - 1 ==> (#[trigger] s[a]).0@ != s[s.len() - 1].0@);
        lemma_entries_map_absent(s.drop_last(), s.last().0@);
        assert(s.last() == s[s.len() - 1]);
    }
}

/// What a lookup at instant `now` returns: the stored record, as long as
/// the entry has not lapsed.
pub open spec fn cache_lookup(m: Map<QuestionView, EntryView>, q: QuestionView, now: u64) -> Option<
    RecordView,
> {
    if m.dom().contains(q) && now < m[q].expires {
        Some(m[q].record)
    } else {
        None
    }
}

/// The cache after a lookup at instant `now`: a lapsed entry is evicted.
pub open spec fn cache_after_lookup(
    m: Map<QuestionView, EntryView>,
    q: QuestionView,
    now: u64,
) -> Map<QuestionView, EntryView> {
    if m.dom().contains(q) && now >= m[q].expires {
        m.remove(q)
    } else {
        m
    }
}

/// A record type worth caching.
pub open spec fn spec_should_cache(t: Type) -> bool {
    t == Type::A || t == Type::NS || t == Type::CNAME || t == Type::MX || t == Type::AAAA
}

/// The cache map after storing every cacheable answer in order, and whether
/// all stores succeeded; the fold stops at the first expiry overflow.
pub open spec fn cache_answers_fold(
    m: Map<QuestionView, EntryView>,
    rs: Seq<RecordView>,
    now: u64,
) -> (Map<QuestionView, EntryView>, bool)
    decreases rs.len(),
{
    if rs.len() == 0 {
        (m, true)
    } else {
        let r0 = rs[0];
        if spec_should_cache(rdata_type(r0.rdata)) {
            if now + r0.ttl <= u64::MAX {
                cache_answers_fold(
                    m.insert(
                        record_question(r0),
                        EntryView { record: r0, expires: (now + r0.ttl) as u64 },
                    ),
                    rs.drop_first(),
                    now,
                )
            } else {
                (m, false)
            }
        } else {
            cache_answers_fold(m, rs.drop_first(), now)
        }
    }
}

/// The question-keyed answer cache.
pub struct DnsCache {
    entries: Vec<(DnsQuestion, DnsCacheEntry)>,
}

impl View for DnsCache {
    type V = Map<QuestionView, EntryView>;

    closed spec fn view(&self) -> Map<QuestionView, EntryView> {
        entries_map(self.entries@)
    }
}

/// Whether two questions are the same triple.
fn question_eq(a: &DnsQuestion, b: &DnsQuestion) -> (r: bool)
    ensures
        r == (a@ == b@),
{
    let names_eq = a.name == b.name;
    let types_eq = a.qtype == b.qtype;
    let classes_eq = a.class == b.class;
    names_eq && types_eq && classes_eq
}

impl DnsCache {
    /// The cache keeps one row per question.
    pub closed spec fn wf(&self) -> bool {
        distinct_keys(self.entries@)
    }

    /// An empty cache.
    pub fn new() -> (c: DnsCache)
        ensures
            c@ == Map::<QuestionView, EntryView>::empty(),
            c.wf(),
    {
        let c = DnsCache { entries: Vec::new() };
        proof {
            assert(c@ =~= Map::<QuestionView, EntryView>::empty());
        }
        c
    }

    /// The row index holding this question, if any.
    #[verifier::loop_isolation(false)]
    fn find_index(&self, question: &DnsQuestion) -> (r: Option<usize>)
        ensures
            match r {
                Some(i) => i < self.entries@.len() && self.entries@[i as int].0@ == question@,
                None => forall|i: int|
                    0 <= i < self.entries@.len() ==> (#[trigger] self.entries@[i]).0@ != question@,
            },
    {
        let mut i: usize = 0;
        while i < self.entries.len()
            invariant
                i <= self.entries@.len(),
                forall|k: int| 0 <= k < i ==> (#[trigger] self.entries@[k]).0@ != question@,
            decreases self.entries@.len() - i,
        {
            if question_eq(&self.entries[i].0, question) {
                return Some(i);
            }
            i = i + 1;
        }
        None
    }

    /// Look up a question at instant `now`. A hit returns the stored
    /// record; a lapsed entry is evicted and reported as a miss.
    pub fn lookup(&mut self, question: &DnsQuestion, now: u64) -> (r: Option<DnsRecord>)
        requires
            old(self).wf(),
        ensures
            final(self).wf(),
            final(self)@ == cache_after_lookup(old(self)@, question@, now),
            match r {
                Some(rec) => cache_lookup(old(self)@, question@, now) == Some(rec@),
                None => cache_lookup(old(self)@, question@, now) is None,
            },
    {
        match self.find_index(question) {
            Some(i) => {
                proof {
                    lemma_entries_map_index(self.entries@, i as int);
                }
                if self.entries[i].1.expired(now) {
                    proof {
                        lemma_entries_map_remove(self.entries@, i as int);
                    }
                    let _ = self.entries.remove(i);
                    None
                } else {
                    let rec = self.entries[i].1.record.duplicate();
                    Some(rec)
                }
            },
            None => {
                proof {
                    lemma_entries_map_absent(self.entries@, question@);
                }
                None
            },
        }
    }

    /// Store a record under its implied question at instant `now`,
    /// overwriting any previous row; an expiry overflow is a cache error
    /// and stores nothing.
    pub fn add(&mut self, record: &DnsRecord, now: u64) -> (r: Result<(), DnsError>)
        requires
            old(self).wf(),
        ensures
            final(self).wf(),
            match r {
                Ok(_) => now + record@.ttl <= u64::MAX && final(self)@ == old(self)@.insert(
                    record_question(record@),
                    EntryView { record: record@, expires: (now + record@.ttl) as u64 },
                ),
                Err(e) => now + record@.ttl > u64::MAX && e is CacheError && final(self)@ == old(
                    self,
                )@,
            },
    {
        let question = record.get_question();
        let entry = DnsCacheEntry::new(record.duplicate(), now)?;
        match self.find_index(&question) {
            Some(i) => {
                let ghost s_old = self.entries@;
                let ghost k = s_old[i as int].0@;
                proof {
                    lemma_entries_map_index(s_old, i as int);
                    lemma_entries_map_remove(s_old, i as int);
                }
                let _ = self.entries.remove(i);
                proof {
                    let s_new = self.entries@;
                    assert forall|a: int| 0 <= a < s_new.len() implies (#[trigger] s_new[a]).0@
                        != question@ by {
                        let a2: int = if a < i as int {
                            a
                        } else {
                            a + 1
                        };
                        assert(s_new[a] == s_old[a2]);
                        if a2 < i as int {
                            assert(s_old[a2].0@ != s_old[i as int].0@);
                        } else {
                            assert(s_old[i as int].0@ != s_old[a2].0@);
                        }
                    }
                    lemma_entries_map_push(s_new, (question, entry));
                    assert(old(self)@.remove(k).insert(question@, entry@) =~= old(self)@.insert(
                        question@,
                        entry@,
                    ));
                }
                self.entries.push((question, entry));
                Ok(())
            },
            None => {
                proof {
                    lemma_entries_map_push(self.entries@, (question, entry));
                }
                self.entries.push((question, entry));
                Ok(())
            },
        }
    }

    /// Store every cacheable answer of the packet in order, stopping at the
    /// first expiry overflow.
    #[verifier::loop_isolation(false)]
    pub fn cache_answers(&mut self, packet: &DnsPacket, now: u64) -> (r: Result<(), DnsError>)
        requires
            old(self).wf(),
        ensures
            final(self).wf(),
            final(self)@ == cache_answers_fold(old(self)@, packet@.answers, now).0,
            match r {
                Ok(_) => cache_answers_fold(old(self)@, packet@.answers, now).1,
                Err(e) => !cache_answers_fold(old(self)@, packet@.answers, now).1
                    && e is CacheError,
            },
    {
        let ghost answers = packet@.answers;
        proof {
            assert(answers.skip(0) =~= answers);
        }
        let mut i: usize = 0;
        while i < packet.answers.len()
            invariant
                self.wf(),
                i <= answers.len(),
                answers.len() == packet.answers@.len(),
                cache_answers_fold(old(self)@, answers, now) == cache_answers_fold(
                    self@,
                    answers.skip(i as int),
                    now,
                ),
            decreases answers.len() - i,
        {
            proof {
                assert(answers.skip(i as int).drop_first() =~= answers.skip(i + 1));
                assert(answers.skip(i as int)[0] == answers[i as int]);
                assert(answers[i as int] == packet.answers@[i as int]@);
            }
            let answer = &packet.answers[i];
            if Self::should_cache(answer) {
                self.add(answer, now)?;
            }
            i = i + 1;
        }
        proof {
            assert(answers.skip(answers.len() as int) =~= Seq::<RecordView>::empty());
        }
        Ok(())
    }

    /// The number of live rows, which is the number of cached questions.
    pub fn len(&self) -> (r: usize)
        requires
            self.wf(),
        ensures
            r == self@.dom().len(),
    {
        proof {
            lemma_entries_map_len(self.entries@);
        }
        self.entries.len()
    }

    /// Whether the cache holds no entry at all.
    pub fn is_empty(&self) -> (r: bool)
        requires
            self.wf(),
        ensures
            r == (self@ == Map::<QuestionView, EntryView>::empty()),
    {
        proof {
            if self.entries@.len() == 0 {
                assert(self@ =~= Map::<QuestionView, EntryView>::empty());
            } else {
                lemma_entries_map_index(self.entries@, 0);
                assert(self@.dom().contains(self.entries@[0].0@));
            }
        }
        self.entries.len() == 0
    }

    /// Whether a record's type is cached: A, NS, CNAME, MX and AAAA are;
    /// SOA deliberately is not.
    fn should_cache(record: &DnsRecord) -> (r: bool)
        ensures
            r == spec_should_cache(rdata_type(record@.rdata)),
    {
        match record.get_type() {
            Type::A => true,
            Type::NS => true,
            Type::CNAME => true,
            Type::MX => true,
            Type::AAAA => true,
            _ => false,
        }
    }
}

/// After a record with a positive time to live is stored, a lookup of its
/// question returns exactly that record at every instant before the expiry,
/// and a miss at the expiry and beyond.
pub proof fn lemma_insert_then_lookup(
    m: Map<QuestionView, EntryView>,
    rec: RecordView,
    t_insert: u64,
    t_lookup: u64,
)
    requires
        t_insert + rec.ttl <= u64::MAX,
    ensures
        ({
            let m2 = m.insert(
                record_question(rec),
                EntryView { record: rec, expires: (t_insert + rec.ttl) as u64 },
            );
            &&& t_lookup < t_insert + rec.ttl ==> cache_lookup(m2, record_question(rec), t_lookup)
                == Some(rec)
            &&& t_lookup >= t_insert + rec.ttl ==> cache_lookup(
                m2,
                record_question(rec),
                t_lookup,
            ) is None
        }),
{
}

/// A record with a zero time to live is accepted, but a lookup at any
/// instant from the insert on misses and leaves the cache without the
/// entry.
pub proof fn lemma_zero_ttl_lookup_misses(
    m: Map<QuestionView, EntryView>,
    rec: RecordView,
    t_insert: u64,
    t_lookup: u64,
)
    requires
        rec.ttl == 0,
        t_insert <= t_lookup,
    ensures
        ({
            let m2 = m.insert(
                record_question(rec),
                EntryView { record: rec, expires: t_insert },
            );
            &&& cache_lookup(m2, record_question(rec), t_lookup) is None
            &&& !cache_after_lookup(m2, record_question(rec), t_lookup).dom().contains(
                record_question(rec),
            )
        }),
{
}

/// Of two records stored under the same question, the later one wins: a
/// lookup before its expiry returns the second record.
pub proof fn lemma_second_insert_wins(
    m: Map<QuestionView, EntryView>,
    r1: RecordView,
    r2: RecordView,
    e1: u64,
    e2: u64,
    t_lookup: u64,
)
    requires
        record_question(r1) == record_question(r2),
        t_lookup < e2,
    ensures
        cache_lookup(
            m.insert(record_question(r1), EntryView { record: r1, expires: e1 }).insert(
                record_question(r2),
                EntryView { record: r2, expires: e2 },
            ),
            record_question(r2),
            t_lookup,
        ) == Some(r2),
{
}

} // verus!
