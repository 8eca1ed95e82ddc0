//! The whole message: header, questions, and the three record sections,
//! decoded and encoded as one unit.

use vstd::prelude::*;

use crate::bytes::{spliced, write_bytes};
use crate::error::DnsError;
use crate::header::{
    append_header,
    header_bytes,
    header_of_bytes,
    header_wf,
    lemma_header_round_trip,
    parse_dns_header,
    DnsHeader,
};
use crate::name::name_wf;
use crate::record::{
    answer_wf,
    append_questions,
    append_record,
    lemma_question_bytes_parse,
    lemma_record_bytes_parse,
    parse_question,
    parse_record,
    question_at,
    question_bytes,
    questions_bytes,
    questions_fit,
    record_at,
    record_bytes,
    record_fits,
    DnsQuestion,
    DnsRecord,
    Ipv4Address,
    PreambleView,
    QuestionView,
    RecordType,
    RecordView,
};

verus! {

/// A full DNS message: the header and the four ordered sections. The
/// header's counts drive decoding; encoding writes the sections as they
/// stand.
#[derive(Debug, Clone, PartialEq, Eq)]
pub struct DnsPacket {
    pub header: DnsHeader,
    pub questions: Vec<DnsQuestion>,
    pub answers: Vec<DnsRecord>,
    pub authorities: Vec<DnsRecord>,
    pub resources: Vec<DnsRecord>,
}

/// The mathematical value of a packet.
#[verifier::ext_equal]
pub struct PacketView {
    pub header: DnsHeader,
    pub questions: Seq<QuestionView>,
    pub answers: Seq<RecordView>,
    pub authorities: Seq<RecordView>,
    pub resources: Seq<RecordView>,
}

impl View for DnsPacket {
    type V = PacketView;

    open spec fn view(&self) -> PacketView {
        PacketView {
            header: self.header,
            questions: self.questions.deep_view(),
            answers: self.answers.deep_view(),
            authorities: self.authorities.deep_view(),
            resources: self.resources.deep_view(),
        }
    }
}

/// The header starting at `pos`: twelve bytes, or `Truncated`.
pub open spec fn header_at(b: Seq<u8>, pos: int) -> Result<(DnsHeader, int), DnsError> {
    if pos < 0 || pos + 12 > b.len() {
        Err(DnsError::Truncated)
    } else {
        Ok((header_of_bytes(b.subrange(pos, pos + 12)), pos + 12))
    }
}

/// `n` questions in a row starting at `pos`, with where they end.
pub open spec fn questions_at(b: Seq<u8>, pos: int, n: int) -> Result<
    (Seq<QuestionView>, int),
    DnsError,
>
    decreases n,
{
    if n <= 0 {
        Ok((Seq::empty(), pos))
    } else {
        match question_at(b, pos) {
            Err(e) => Err(e),
            Ok((q, p1)) => match questions_at(b, p1, n - 1) {
                Err(e) => Err(e),
                Ok((qs, p2)) => Ok((seq![q] + qs, p2)),
            },
        }
    }
}

/// `n` records in a row starting at `pos`, with where they end.
pub open spec fn records_at(b: Seq<u8>, pos: int, n: int) -> Result<
    (Seq<RecordView>, int),
    DnsError,
>
    decreases n,
{
    if n <= 0 {
        Ok((Seq::empty(), pos))
    } else {
        match record_at(b, pos) {
            Err(e) => Err(e),
            Ok((r, p1)) => match records_at(b, p1, n - 1) {
                Err(e) => Err(e),
                Ok((rs, p2)) => Ok((seq![r] + rs, p2)),
            },
        }
    }
}

/// The whole packet starting at `pos`: the header, then as many questions,
/// answers, authority and additional records as its counts say. The counts
/// are trusted; the only cross-check against the buffer is running out of
/// bytes, which fails the whole decode.
pub open spec fn packet_at(b: Seq<u8>, pos: int) -> Result<(PacketView, int), DnsError> {
    match header_at(b, pos) {
        Err(e) => Err(e),
        Ok((h, p1)) => match questions_at(b, p1, h.questions as int) {
            Err(e) => Err(e),
            Ok((qs, p2)) => match records_at(b, p2, h.answers as int) {
                Err(e) => Err(e),
                Ok((ans, p3)) => match records_at(b, p3, h.authorities as int) {
                    Err(e) => Err(e),
                    Ok((auth, p4)) => match records_at(b, p4, h.resources as int) {
                        Err(e) => Err(e),
                        Ok((res, p5)) => Ok(
                            (
                                PacketView {
                                    header: h,
                                    questions: qs,
                                    answers: ans,
                                    authorities: auth,
                                    resources: res,
                                },
                                p5,
                            ),
                        ),
                    },
                },
            },
        },
    }
}

/// Decodes `count` questions in a row; the results and the errors are
/// exactly `questions_at`.
fn parse_questions(buf: &[u8], pos: usize, count: u16) -> (r: Result<
    (Vec<DnsQuestion>, usize),
    DnsError,
>)
    requires
        pos <= buf@.len(),
    ensures
        match r {
            Ok((qs, end)) => questions_at(buf@, pos as int, count as int) == Ok::<_, DnsError>(
                (qs.deep_view(), end as int),
            ) && end <= buf@.len(),
            Err(e) => questions_at(buf@, pos as int, count as int) == Err::<
                (Seq<QuestionView>, int),
                _,
            >(e),
        },
{
    let mut qs: Vec<DnsQuestion> = Vec::new();
    let mut cur = pos;
    let mut i: u16 = 0;
    while i < count
        invariant
            i <= count,
            cur <= buf@.len(),
            (match questions_at(buf@, cur as int, count - i) {
                Ok((rest, end)) => questions_at(buf@, pos as int, count as int) == Ok::<
                    _,
                    DnsError,
                >((qs.deep_view() + rest, end)),
                Err(e) => questions_at(buf@, pos as int, count as int) == Err::<
                    (Seq<QuestionView>, int),
                    _,
                >(e),
            }),
        decreases count - i,
    {
        match parse_question(buf, cur) {
            Ok((q, end)) => {
                let ghost pre = qs.deep_view();
                let ghost qv = q@;
                qs.push(q);
                proof {
                    assert(qs.deep_view() =~= pre.push(qv));
                    assert(pre + seq![qv] =~= pre.push(qv));
                    if questions_at(buf@, end as int, count - i - 1) is Ok {
                        let rest = questions_at(buf@, end as int, count - i - 1)->Ok_0.0;
                        assert(pre + (seq![qv] + rest) =~= qs.deep_view() + rest);
                    }
                }
                cur = end;
            },
            Err(e) => {
                return Err(e);
            },
        }
        i = i + 1;
    }
    proof {
        assert(qs.deep_view() + Seq::<QuestionView>::empty() =~= qs.deep_view());
    }
    Ok((qs, cur))
}

/// Decodes `count` records in a row; the results and the errors are
/// exactly `records_at`.
fn parse_records(buf: &[u8], pos: usize, count: u16) -> (r: Result<
    (Vec<DnsRecord>, usize),
    DnsError,
>)
    requires
        pos <= buf@.len(),
    ensures
        match r {
            Ok((rs, end)) => records_at(buf@, pos as int, count as int) == Ok::<_, DnsError>(
                (rs.deep_view(), end as int),
            ) && end <= buf@.len(),
            Err(e) => records_at(buf@, pos as int, count as int) == Err::<
                (Seq<RecordView>, int),
                _,
            >(e),
        },
{
    let mut rs: Vec<DnsRecord> = Vec::new();
    let mut cur = pos;
    let mut i: u16 = 0;
    while i < count
        invariant
            i <= count,
            cur <= buf@.len(),
            (match records_at(buf@, cur as int, count - i) {
                Ok((rest, end)) => records_at(buf@, pos as int, count as int) == Ok::<_, DnsError>(
                    (rs.deep_view() + rest, end),
                ),
                Err(e) => records_at(buf@, pos as int, count as int) == Err::<
                    (Seq<RecordView>, int),
                    _,
                >(e),
            }),
        decreases count - i,
    {
        match parse_record(buf, cur) {
            Ok((rec, end)) => {
                let ghost pre = rs.deep_view();
                let ghost rv = rec@;
                rs.push(rec);
                proof {
                    assert(rs.deep_view() =~= pre.push(rv));
                    assert(pre + seq![rv] =~= pre.push(rv));
                    if records_at(buf@, end as int, count - i - 1) is Ok {
                        let rest = records_at(buf@, end as int, count - i - 1)->Ok_0.0;
                        assert(pre + (seq![rv] + rest) =~= rs.deep_view() + rest);
                    }
                }
                cur = end;
            },
            Err(e) => {
                return Err(e);
            },
        }
        i = i + 1;
    }
    proof {
        assert(rs.deep_view() + Seq::<RecordView>::empty() =~= rs.deep_view());
    }
    Ok((rs, cur))
}

/// Decodes a whole message at `pos` against the buffer `buf`; the result
/// and the errors are exactly `packet_at`. The first failing entry aborts
/// the whole decode: no partial packet is returned.
pub fn parse_packet(buf: &[u8], pos: usize) -> (r: Result<(DnsPacket, usize), DnsError>)
    ensures
        match r {
            Ok((p, end)) => packet_at(buf@, pos as int) == Ok::<_, DnsError>((p@, end as int))
                && end <= buf@.len(),
            Err(e) => packet_at(buf@, pos as int) == Err::<(PacketView, int), _>(e),
        },
{
    let (header, p1) = match parse_dns_header(buf, pos) {
        Ok(x) => x,
        Err(e) => { return Err(e); },
    };
    let (questions, p2) = match parse_questions(buf, p1, header.questions) {
        Ok(x) => x,
        Err(e) => { return Err(e); },
    };
    let (answers, p3) = match parse_records(buf, p2, header.answers) {
        Ok(x) => x,
        Err(e) => { return Err(e); },
    };
    let (authorities, p4) = match parse_records(buf, p3, header.authorities) {
        Ok(x) => x,
        Err(e) => { return Err(e); },
    };
    let (resources, p5) = match parse_records(buf, p4, header.resources) {
        Ok(x) => x,
        Err(e) => { return Err(e); },
    };
    Ok((DnsPacket { header, questions, answers, authorities, resources }, p5))
}

/// The wire bytes of a run of answer records, in order; records of
/// unsupported type contribute nothing.
pub open spec fn records_bytes(rs: Seq<RecordView>) -> Seq<u8>
    decreases rs.len(),
{
    if rs.len() == 0 {
        Seq::empty()
    } else {
        record_bytes(rs[0]) + records_bytes(rs.drop_first())
    }
}

/// Every record's name is encodable.
pub open spec fn records_fit(rs: Seq<RecordView>) -> bool {
    forall|i: int| 0 <= i < rs.len() ==> record_fits(#[trigger] rs[i])
}

/// Appending one record to the encoding of a run.
proof fn lemma_records_bytes_snoc(s: Seq<RecordView>, i: int)
    requires
        0 <= i < s.len(),
    ensures
        records_bytes(s.take(i + 1)) == records_bytes(s.take(i)) + record_bytes(s[i]),
    decreases i,
{
    if i == 0 {
        assert(s.take(1).drop_first() =~= Seq::<RecordView>::empty());
        assert(s.take(0) =~= Seq::<RecordView>::empty());
        assert(s.take(1)[0] == s[0]);
        assert(records_bytes(s.take(1).drop_first()) == Seq::<u8>::empty());
        assert(records_bytes(s.take(1)) == record_bytes(s.take(1)[0]) + records_bytes(
            s.take(1).drop_first(),
        ));
        assert(records_bytes(s.take(1)) =~= Seq::empty() + record_bytes(s[0]));
    } else {
        let t = s.drop_first();
        lemma_records_bytes_snoc(t, i - 1);
        assert(s.take(i + 1).drop_first() =~= t.take(i));
        assert(s.take(i).drop_first() =~= t.take(i - 1));
        assert(s.take(i + 1)[0] == s[0] && s.take(i)[0] == s[0]);
        assert(records_bytes(s.take(i + 1)) =~= records_bytes(s.take(i)) + record_bytes(s[i]));
    }
}

/// The wire bytes a packet is serialised to: the header, the questions in
/// order, then the answers in order. Authority and additional records are
/// not emitted; encoding them is an extension point, as is any record body
/// other than an address.
pub open spec fn packet_bytes(p: PacketView) -> Seq<u8> {
    header_bytes(p.header) + questions_bytes(p.questions) + records_bytes(p.answers)
}

/// Every name the encoder would write is encodable.
pub open spec fn packet_fits(p: PacketView) -> bool {
    questions_fit(p.questions) && records_fit(p.answers)
}

impl DnsPacket {
    /// An empty message: a zeroed header and no entries in any section.
    pub fn new() -> (r: DnsPacket)
        ensures
            r@.header == (DnsHeader {
                id: 0,
                message_type: 0,
                opcode: 0,
                authoritative_answer: 0,
                truncated_message: 0,
                recursion_desired: 0,
                recursion_available: 0,
                zz: 0,
                authed_data: 0,
                checking_disabled: 0,
                rescode: 0,
                questions: 0,
                answers: 0,
                authorities: 0,
                resources: 0,
            }),
            r@.questions == Seq::<QuestionView>::empty(),
            r@.answers == Seq::<RecordView>::empty(),
            r@.authorities == Seq::<RecordView>::empty(),
            r@.resources == Seq::<RecordView>::empty(),
    {
        let p = DnsPacket {
            header: DnsHeader {
                id: 0,
                message_type: 0,
                opcode: 0,
                authoritative_answer: 0,
                truncated_message: 0,
                recursion_desired: 0,
                recursion_available: 0,
                zz: 0,
                authed_data: 0,
                checking_disabled: 0,
                rescode: 0,
                questions: 0,
                answers: 0,
                authorities: 0,
                resources: 0,
            },
            questions: Vec::new(),
            answers: Vec::new(),
            authorities: Vec::new(),
            resources: Vec::new(),
        };
        proof {
            assert(p@.questions =~= Seq::<QuestionView>::empty());
            assert(p@.answers =~= Seq::<RecordView>::empty());
            assert(p@.authorities =~= Seq::<RecordView>::empty());
            assert(p@.resources =~= Seq::<RecordView>::empty());
        }
        p
    }

    /// Adds a question to the question section and counts it in the header.
    pub fn add_question(&mut self, question: DnsQuestion)
        requires
            old(self).header.questions < 0xffff,
        ensures
            final(self)@.questions == old(self)@.questions.push(question@),
            final(self).header == (DnsHeader {
                questions: (old(self).header.questions + 1) as u16,
                ..old(self).header
            }),
            final(self)@.answers == old(self)@.answers,
            final(self)@.authorities == old(self)@.authorities,
            final(self)@.resources == old(self)@.resources,
    {
        let ghost pre = self@.questions;
        let ghost qv = question@;
        self.questions.push(question);
        self.header.questions = self.header.questions + 1;
        proof {
            assert(self@.questions =~= pre.push(qv));
        }
    }

    /// Adds an answer record to the answer section and counts it in the
    /// header.
    pub fn add_answer(&mut self, record: DnsRecord)
        requires
            old(self).header.answers < 0xffff,
        ensures
            final(self)@.answers == old(self)@.answers.push(record@),
            final(self).header == (DnsHeader {
                answers: (old(self).header.answers + 1) as u16,
                ..old(self).header
            }),
            final(self)@.questions == old(self)@.questions,
            final(self)@.authorities == old(self)@.authorities,
            final(self)@.resources == old(self)@.resources,
    {
        let ghost pre = self@.answers;
        let ghost rv = record@;
        self.answers.push(record);
        self.header.answers = self.header.answers + 1;
        proof {
            assert(self@.answers =~= pre.push(rv));
        }
    }

    /// Serialises the packet into `out` from its start: the header, the
    /// questions, then the answers. `LabelTooLong` exactly when some name
    /// has a label over 63 bytes; otherwise `BufferTooSmall` exactly when
    /// the message does not fit; on any error `out` is untouched.
    pub fn serialise(&self, out: &mut Vec<u8>) -> (r: Result<usize, DnsError>)
        ensures
            match r {
                Ok(n) => {
                    &&& packet_fits(self@)
                    &&& packet_bytes(self@).len() <= old(out)@.len()
                    &&& n == packet_bytes(self@).len()
                    &&& final(out)@ == spliced(old(out)@, 0, packet_bytes(self@))
                },
                Err(e) => final(out)@ == old(out)@ && {
                    if e == DnsError::LabelTooLong {
                        !packet_fits(self@)
                    } else {
                        &&& e == DnsError::BufferTooSmall
                        &&& packet_fits(self@)
                        &&& packet_bytes(self@).len() > old(out)@.len()
                    }
                },
            },
    {
        let ghost dva = self.answers.deep_view();
        let mut v: Vec<u8> = Vec::new();
        append_header(&mut v, &self.header);
        match append_questions(&mut v, &self.questions) {
            Ok(()) => {},
            Err(e) => { return Err(e); },
        }
        let ghost mid = v@;
        let mut i: usize = 0;
        while i < self.answers.len()
            invariant
                i <= dva.len(),
                dva == self.answers.deep_view(),
                dva.len() == self.answers@.len(),
                v@ == mid + records_bytes(dva.take(i as int)),
                forall|k: int| 0 <= k < i ==> record_fits(#[trigger] dva[k]),
        decreases self.answers@.len() - i,
        {
            match append_record(&mut v, &self.answers[i]) {
                Ok(()) => {},
                Err(e) => {
                    proof {
                        assert(!record_fits(dva[i as int]));
                    }
                    return Err(e);
                },
            }
            proof {
                lemma_records_bytes_snoc(dva, i as int);
                assert(v@ =~= mid + records_bytes(dva.take(i + 1)));
            }
            i = i + 1;
        }
        proof {
            assert(dva.take(dva.len() as int) =~= dva);
            assert(v@ =~= packet_bytes(self@));
        }
        write_bytes(out, 0, &v)
    }
}

/// A run of encoded questions decodes back to the questions it was made
/// from, in order, ending just past the last one.
pub proof fn lemma_questions_bytes_parse(b: Seq<u8>, pos: int, qs: Seq<QuestionView>)
    requires
        0 <= pos,
        forall|i: int| 0 <= i < qs.len() ==> name_wf((#[trigger] qs[i]).qname),
        pos + questions_bytes(qs).len() <= b.len(),
        b.subrange(pos, pos + questions_bytes(qs).len()) == questions_bytes(qs),
    ensures
        questions_at(b, pos, qs.len() as int) == Ok::<_, DnsError>(
            (qs, pos + questions_bytes(qs).len()),
        ),
    decreases qs.len(),
{
    let qsb = questions_bytes(qs);
    assert forall|k: int| 0 <= k < qsb.len() implies b[pos + k] == qsb[k] by {
        assert(b.subrange(pos, pos + qsb.len())[k] == b[pos + k]);
    }
    if qs.len() == 0 {
        assert(qs =~= Seq::<QuestionView>::empty());
    } else {
        let q0 = qs[0];
        let rest = qs.drop_first();
        let qb0 = question_bytes(q0);
        let rb = questions_bytes(rest);
        assert(qsb == qb0 + rb);
        assert(b.subrange(pos, pos + qb0.len()) =~= qb0) by {
            assert forall|i: int| 0 <= i < qb0.len() implies b[pos + i] == qb0[i] by {
                assert(qsb[i] == qb0[i]);
            }
        }
        lemma_question_bytes_parse(b, pos, q0);
        let p1 = pos + qb0.len() as int;
        assert(b.subrange(p1, p1 + rb.len()) =~= rb) by {
            assert forall|i: int| 0 <= i < rb.len() implies b[p1 + i] == rb[i] by {
                assert(qsb[qb0.len() + i] == rb[i]);
            }
        }
        assert forall|i: int| 0 <= i < rest.len() implies name_wf((#[trigger] rest[i]).qname) by {
            assert(rest[i] == qs[i + 1]);
        }
        lemma_questions_bytes_parse(b, p1, rest);
        assert(seq![q0] + rest =~= qs);
    }
}

/// A run of encoded answer records decodes back to the records it was made
/// from, in order, ending just past the last one.
pub proof fn lemma_records_bytes_parse(b: Seq<u8>, pos: int, rs: Seq<RecordView>)
    requires
        0 <= pos,
        forall|i: int| 0 <= i < rs.len() ==> answer_wf(#[trigger] rs[i]),
        pos + records_bytes(rs).len() <= b.len(),
        b.subrange(pos, pos + records_bytes(rs).len()) == records_bytes(rs),
    ensures
        records_at(b, pos, rs.len() as int) == Ok::<_, DnsError>(
            (rs, pos + records_bytes(rs).len()),
        ),
    decreases rs.len(),
{
    let rsb = records_bytes(rs);
    assert forall|k: int| 0 <= k < rsb.len() implies b[pos + k] == rsb[k] by {
        assert(b.subrange(pos, pos + rsb.len())[k] == b[pos + k]);
    }
    if rs.len() == 0 {
        assert(rs =~= Seq::<RecordView>::empty());
    } else {
        let r0 = rs[0];
        let rest = rs.drop_first();
        let rb0 = record_bytes(r0);
        let rb = records_bytes(rest);
        assert(rsb == rb0 + rb);
        assert(b.subrange(pos, pos + rb0.len()) =~= rb0) by {
            assert forall|i: int| 0 <= i < rb0.len() implies b[pos + i] == rb0[i] by {
                assert(rsb[i] == rb0[i]);
            }
        }
        lemma_record_bytes_parse(b, pos, r0);
        let p1 = pos + rb0.len() as int;
        assert(b.subrange(p1, p1 + rb.len()) =~= rb) by {
            assert forall|i: int| 0 <= i < rb.len() implies b[p1 + i] == rb[i] by {
                assert(rsb[rb0.len() + i] == rb[i]);
            }
        }
        assert forall|i: int| 0 <= i < rest.len() implies answer_wf(#[trigger] rest[i]) by {
            assert(rest[i] == rs[i + 1]);
        }
        lemma_records_bytes_parse(b, p1, rest);
        assert(seq![r0] + rest =~= rs);
    }
}

/// A packet the encoder fully supports: a well-formed header whose counts
/// equal the section lengths, no authority or additional records, names
/// that survive the round trip, and only well-formed address answers.
pub open spec fn packet_wf(p: PacketView) -> bool {
    &&& header_wf(p.header)
    &&& p.header.questions == p.questions.len()
    &&& p.header.answers == p.answers.len()
    &&& p.header.authorities == 0
    &&& p.header.resources == 0
    &&& p.authorities.len() == 0
    &&& p.resources.len() == 0
    &&& forall|i: int| 0 <= i < p.questions.len() ==> name_wf((#[trigger] p.questions[i]).qname)
    &&& forall|i: int| 0 <= i < p.answers.len() ==> answer_wf(#[trigger] p.answers[i])
}

/// The structural round trip for the supported subset: serialising a
/// well-formed packet of questions and address answers and decoding the
/// bytes again gives back the same packet, consuming them all.
pub proof fn lemma_packet_round_trip(p: PacketView)
    requires
        packet_wf(p),
    ensures
        packet_at(packet_bytes(p), 0) == Ok::<_, DnsError>((p, packet_bytes(p).len() as int)),
{
    let b = packet_bytes(p);
    let hb = header_bytes(p.header);
    let qsb = questions_bytes(p.questions);
    let rsb = records_bytes(p.answers);
    assert(hb.len() == 12);
    assert(b == hb + qsb + rsb);
    assert(b.subrange(0, 12) =~= hb) by {
        assert forall|i: int| 0 <= i < 12 implies b[i] == hb[i] by {
            assert((hb + qsb + rsb)[i] == hb[i]);
        }
    }
    lemma_header_round_trip(p.header);
    assert(header_at(b, 0) == Ok::<_, DnsError>((p.header, 12int)));
    assert(b.subrange(12, 12 + qsb.len() as int) =~= qsb) by {
        assert forall|i: int| 0 <= i < qsb.len() implies b[12 + i] == qsb[i] by {
            assert((hb + qsb + rsb)[12 + i] == qsb[i]);
        }
    }
    lemma_questions_bytes_parse(b, 12, p.questions);
    let p2 = 12 + qsb.len() as int;
    assert(b.subrange(p2, p2 + rsb.len()) =~= rsb) by {
        assert forall|i: int| 0 <= i < rsb.len() implies b[p2 + i] == rsb[i] by {
            assert((hb + qsb + rsb)[p2 + i] == rsb[i]);
        }
    }
    lemma_records_bytes_parse(b, p2, p.answers);
    let p3 = p2 + rsb.len() as int;
    assert(p3 == b.len());
    assert(records_at(b, p3, 0) == Ok::<_, DnsError>((Seq::<RecordView>::empty(), p3)));
    assert(p.authorities =~= Seq::<RecordView>::empty());
    assert(p.resources =~= Seq::<RecordView>::empty());
    assert((PacketView {
        header: p.header,
        questions: p.questions,
        answers: p.answers,
        authorities: Seq::<RecordView>::empty(),
        resources: Seq::<RecordView>::empty(),
    }) =~= p);
}

impl DnsRecord {
    /// The answer record a stub reply synthesises for a question: an
    /// address record under the question's name, with a time to live of
    /// zero and the given address.
    pub fn from_question(question: &DnsQuestion, ipv4: Ipv4Address) -> (r: DnsRecord)
        ensures
            r@ == (RecordView::A {
                preamble: PreambleView {
                    rname: question@.qname,
                    rtype: RecordType::A,
                    ttl: 0,
                    length: 4,
                },
                ipv4,
            }),
    {
        DnsRecord::A {
            preamble: crate::record::DnsRecordPreamble {
                rname: crate::name::clone_label(&question.qname),
                rtype: RecordType::A,
                ttl: 0,
                length: 4,
            },
            ipv4,
        }
    }
}

} // verus!
