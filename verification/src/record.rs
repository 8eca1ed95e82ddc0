//! Questions and resource records: the entries of the question, answer,
//! authority and additional sections.

use vstd::prelude::*;

use crate::bytes::{
    append_u16,
    append_u32,
    read_u16_be,
    read_u32_be,
    spliced,
    u16_bytes,
    u16_of,
    u32_bytes,
    u32_of,
    write_bytes,
};
use crate::error::DnsError;
use crate::name::{
    append_name,
    lemma_name_bytes_parse,
    name_bytes,
    name_end,
    name_fits,
    name_labels,
    name_wf,
    parse_label,
    Label,
};

verus! {

/// An IPv4 address as its four dotted-quad octets.
#[derive(Debug, Clone, Copy, PartialEq, Eq, Structural)]
pub struct Ipv4Address {
    pub o0: u8,
    pub o1: u8,
    pub o2: u8,
    pub o3: u8,
}

impl Ipv4Address {
    /// The address `o0.o1.o2.o3`.
    pub fn new(o0: u8, o1: u8, o2: u8, o3: u8) -> (r: Ipv4Address)
        ensures
            r == (Ipv4Address { o0, o1, o2, o3 }),
    {
        Ipv4Address { o0, o1, o2, o3 }
    }
}

/// The open set of record types: code 1 is an address record, every other
/// code is carried through unchanged as `UNKNOWN`.
#[derive(Debug, Clone, Copy, PartialEq, Eq, Structural)]
pub enum RecordType {
    UNKNOWN(u16),
    A,
}

/// The variant a 16-bit type code decodes to: total and infallible.
pub open spec fn record_type_of(code: u16) -> RecordType {
    if code == 1 {
        RecordType::A
    } else {
        RecordType::UNKNOWN(code)
    }
}

/// The 16-bit code a variant encodes to.
pub open spec fn record_type_code(t: RecordType) -> u16 {
    match t {
        RecordType::A => 1,
        RecordType::UNKNOWN(code) => code,
    }
}

impl From<u16> for RecordType {
    /// The registry mapping from wire code to variant.
    fn from(tag: u16) -> (r: Self) {
        if tag == 1 {
            RecordType::A
        } else {
            RecordType::UNKNOWN(tag)
        }
    }
}

impl vstd::std_specs::convert::FromSpecImpl<u16> for RecordType {
    open spec fn obeys_from_spec() -> bool {
        true
    }

    open spec fn from_spec(tag: u16) -> Self {
        record_type_of(tag)
    }
}

/// A question entry: a name and a query type. The class field is read and
/// written on the wire but not retained; it is assumed to be "Internet".
#[derive(Debug, Clone, PartialEq, Eq)]
pub struct DnsQuestion {
    pub qname: Label,
    pub qtype: u16,
}

/// The mathematical value of a question.
#[verifier::ext_equal]
pub struct QuestionView {
    pub qname: Seq<Seq<u8>>,
    pub qtype: u16,
}

impl View for DnsQuestion {
    type V = QuestionView;

    open spec fn view(&self) -> QuestionView {
        QuestionView { qname: self.qname@, qtype: self.qtype }
    }
}

/// The fields every resource record starts with: name, type, time to live,
/// and the byte length of the type-specific body that follows. The class
/// field is read and discarded, as in questions.
#[derive(Debug, Clone, PartialEq, Eq)]
pub struct DnsRecordPreamble {
    pub rname: Label,
    pub rtype: RecordType,
    pub ttl: u32,
    pub length: u16,
}

/// The mathematical value of a record preamble.
#[verifier::ext_equal]
pub struct PreambleView {
    pub rname: Seq<Seq<u8>>,
    pub rtype: RecordType,
    pub ttl: u32,
    pub length: u16,
}

impl View for DnsRecordPreamble {
    type V = PreambleView;

    open spec fn view(&self) -> PreambleView {
        PreambleView {
            rname: self.rname@,
            rtype: self.rtype,
            ttl: self.ttl,
            length: self.length,
        }
    }
}

/// A resource record: an address record carries its IPv4 address, any other
/// type keeps only the preamble and its body bytes are skipped.
#[derive(Debug, Clone, PartialEq, Eq)]
pub enum DnsRecord {
    UNKNOWN { preamble: DnsRecordPreamble },
    A { preamble: DnsRecordPreamble, ipv4: Ipv4Address },
}

/// The mathematical value of a resource record.
#[verifier::ext_equal]
pub enum RecordView {
    UNKNOWN { preamble: PreambleView },
    A { preamble: PreambleView, ipv4: Ipv4Address },
}

impl View for DnsRecord {
    type V = RecordView;

    open spec fn view(&self) -> RecordView {
        match self {
            DnsRecord::UNKNOWN { preamble } => RecordView::UNKNOWN { preamble: preamble@ },
            DnsRecord::A { preamble, ipv4 } => RecordView::A { preamble: preamble@, ipv4: *ipv4 },
        }
    }
}

/// The question starting at `pos`, read against the whole message `b`: a
/// name, a type, and a discarded class.
pub open spec fn question_at(b: Seq<u8>, pos: int) -> Result<(QuestionView, int), DnsError> {
    match name_labels(b, pos, 0) {
        Err(e) => Err(e),
        Ok(labels) => match name_end(b, pos) {
            Err(e) => Err(e),
            Ok(e1) => if e1 + 4 > b.len() {
                Err(DnsError::Truncated)
            } else {
                Ok((QuestionView { qname: labels, qtype: u16_of(b[e1], b[e1 + 1]) }, e1 + 4))
            },
        },
    }
}

/// The record preamble starting at `pos`: a name, a type, a discarded
/// class, the time to live and the body length.
pub open spec fn preamble_at(b: Seq<u8>, pos: int) -> Result<(PreambleView, int), DnsError> {
    match name_labels(b, pos, 0) {
        Err(e) => Err(e),
        Ok(rname) => match name_end(b, pos) {
            Err(e) => Err(e),
            Ok(e1) => if e1 + 10 > b.len() {
                Err(DnsError::Truncated)
            } else {
                Ok(
                    (
                        PreambleView {
                            rname,
                            rtype: record_type_of(u16_of(b[e1], b[e1 + 1])),
                            ttl: u32_of(b[e1 + 4], b[e1 + 5], b[e1 + 6], b[e1 + 7]),
                            length: u16_of(b[e1 + 8], b[e1 + 9]),
                        },
                        e1 + 10,
                    ),
                )
            },
        },
    }
}

/// The whole record starting at `pos`: its preamble, then an address for an
/// address record, or `length` skipped body bytes for any other type.
pub open spec fn record_at(b: Seq<u8>, pos: int) -> Result<(RecordView, int), DnsError> {
    match preamble_at(b, pos) {
        Err(e) => Err(e),
        Ok((pre, body)) => if pre.rtype == RecordType::A {
            if body + 4 > b.len() {
                Err(DnsError::Truncated)
            } else {
                Ok(
                    (
                        RecordView::A {
                            preamble: pre,
                            ipv4: Ipv4Address {
                                o0: b[body],
                                o1: b[body + 1],
                                o2: b[body + 2],
                                o3: b[body + 3],
                            },
                        },
                        body + 4,
                    ),
                )
            }
        } else {
            if body + pre.length > b.len() {
                Err(DnsError::Truncated)
            } else {
                Ok((RecordView::UNKNOWN { preamble: pre }, body + pre.length))
            }
        },
    }
}

/// Decodes the question at `pos` against the whole message `buf`; the
/// result and the errors are exactly `question_at`.
pub fn parse_question(buf: &[u8], pos: usize) -> (r: Result<(DnsQuestion, usize), DnsError>)
    ensures
        match r {
            Ok((q, end)) => question_at(buf@, pos as int) == Ok::<_, DnsError>((q@, end as int))
                && end <= buf@.len(),
            Err(e) => question_at(buf@, pos as int) == Err::<(QuestionView, int), _>(e),
        },
{
    let n = buf.len();
    let (qname, p1) = match parse_label(buf, pos) {
        Ok(x) => x,
        Err(e) => { return Err(e); },
    };
    let qtype = match read_u16_be(buf, p1) {
        Ok(v) => v,
        Err(e) => { return Err(e); },
    };
    match read_u16_be(buf, p1 + 2) {
        Ok(_qclass) => {},
        Err(e) => { return Err(e); },
    }
    Ok((DnsQuestion { qname, qtype }, p1 + 4))
}

/// Decodes the record preamble at `pos` against the whole message `buf`;
/// the result and the errors are exactly `preamble_at`.
pub fn parse_record_preamble(buf: &[u8], pos: usize) -> (r: Result<
    (DnsRecordPreamble, usize),
    DnsError,
>)
    ensures
        match r {
            Ok((pre, end)) => preamble_at(buf@, pos as int) == Ok::<_, DnsError>(
                (pre@, end as int),
            ) && end <= buf@.len(),
            Err(e) => preamble_at(buf@, pos as int) == Err::<(PreambleView, int), _>(e),
        },
{
    let n = buf.len();
    let (rname, p1) = match parse_label(buf, pos) {
        Ok(x) => x,
        Err(e) => { return Err(e); },
    };
    let rtype_tag = match read_u16_be(buf, p1) {
        Ok(v) => v,
        Err(e) => { return Err(e); },
    };
    let rtype = RecordType::from(rtype_tag);
    match read_u16_be(buf, p1 + 2) {
        Ok(_rclass) => {},
        Err(e) => { return Err(e); },
    }
    let ttl = match read_u32_be(buf, p1 + 4) {
        Ok(v) => v,
        Err(e) => { return Err(e); },
    };
    let length = match read_u16_be(buf, p1 + 8) {
        Ok(v) => v,
        Err(e) => { return Err(e); },
    };
    Ok((DnsRecordPreamble { rname, rtype, ttl, length }, p1 + 10))
}

/// Decodes the whole record at `pos` against the whole message `buf`; the
/// result and the errors are exactly `record_at`.
pub fn parse_record(buf: &[u8], pos: usize) -> (r: Result<(DnsRecord, usize), DnsError>)
    ensures
        match r {
            Ok((rec, end)) => record_at(buf@, pos as int) == Ok::<_, DnsError>((rec@, end as int))
                && end <= buf@.len(),
            Err(e) => record_at(buf@, pos as int) == Err::<(RecordView, int), _>(e),
        },
{
    let n = buf.len();
    let (preamble, body) = match parse_record_preamble(buf, pos) {
        Ok(x) => x,
        Err(e) => { return Err(e); },
    };
    match preamble.rtype {
        RecordType::A => {
            if buf.len() - body < 4 {
                return Err(DnsError::Truncated);
            }
            let ipv4 = Ipv4Address { o0: buf[body], o1: buf[body + 1], o2: buf[body + 2], o3: buf[
                body + 3] };
            Ok((DnsRecord::A { preamble, ipv4 }, body + 4))
        },
        RecordType::UNKNOWN(_) => {
            let skip = preamble.length as usize;
            if buf.len() - body < skip {
                return Err(DnsError::Truncated);
            }
            Ok((DnsRecord::UNKNOWN { preamble }, body + skip))
        },
    }
}

impl DeepView for DnsQuestion {
    type V = QuestionView;

    open spec fn deep_view(&self) -> QuestionView {
        QuestionView { qname: self.qname@, qtype: self.qtype }
    }
}

impl DeepView for DnsRecord {
    type V = RecordView;

    open spec fn deep_view(&self) -> RecordView {
        self.view()
    }
}

impl RecordType {
    /// The wire code of this variant.
    pub fn code(&self) -> (c: u16)
        ensures
            c == record_type_code(*self),
    {
        match self {
            RecordType::A => 1,
            RecordType::UNKNOWN(code) => *code,
        }
    }
}

/// The wire bytes of a question: the uncompressed name, the type, and a
/// class of 1 ("Internet").
pub open spec fn question_bytes(q: QuestionView) -> Seq<u8> {
    name_bytes(q.qname) + u16_bytes(q.qtype) + u16_bytes(1)
}

/// The wire bytes an answer record is written as. Only address records have
/// a body the codec can reproduce; records of any other type are not
/// emitted at all, an extension point of the encoder.
pub open spec fn record_bytes(r: RecordView) -> Seq<u8> {
    match r {
        RecordView::A { preamble, ipv4 } => name_bytes(preamble.rname) + u16_bytes(
            record_type_code(preamble.rtype),
        ) + u16_bytes(1) + u32_bytes(preamble.ttl) + u16_bytes(preamble.length) + seq![
            ipv4.o0,
            ipv4.o1,
            ipv4.o2,
            ipv4.o3,
        ],
        RecordView::UNKNOWN { .. } => Seq::empty(),
    }
}

/// The record's name is encodable; vacuous for records the encoder skips.
pub open spec fn record_fits(r: RecordView) -> bool {
    match r {
        RecordView::A { preamble, .. } => name_fits(preamble.rname),
        RecordView::UNKNOWN { .. } => true,
    }
}

/// An answer the codec can both write and read back: an address record
/// whose preamble carries the address type, the four-byte body length, and
/// a name that survives the round trip.
pub open spec fn answer_wf(r: RecordView) -> bool {
    match r {
        RecordView::A { preamble, .. } => preamble.rtype == RecordType::A && preamble.length == 4
            && name_wf(preamble.rname),
        RecordView::UNKNOWN { .. } => false,
    }
}

/// Appends the encoding of a question to a buffer under construction;
/// `LabelTooLong` exactly when a label of its name is over 63 bytes, and
/// then the buffer is untouched.
pub fn append_question(v: &mut Vec<u8>, question: &DnsQuestion) -> (r: Result<(), DnsError>)
    ensures
        match r {
            Ok(()) => name_fits(question@.qname) && final(v)@ == old(v)@ + question_bytes(
                question@,
            ),
            Err(e) => e == DnsError::LabelTooLong && !name_fits(question@.qname) && final(v)@
                == old(v)@,
        },
{
    let ghost base = v@;
    match append_name(v, &question.qname) {
        Ok(()) => {},
        Err(e) => { return Err(e); },
    }
    append_u16(v, question.qtype);
    append_u16(v, 1);
    proof {
        assert(v@ =~= base + question_bytes(question@));
    }
    Ok(())
}

/// Appends the encoding of an answer record to a buffer under construction.
/// An address record is written in full; a record of any other type is
/// skipped, since the codec does not hold its body. `LabelTooLong` exactly
/// when a written name has a label over 63 bytes, and then the buffer is
/// untouched.
pub fn append_record(v: &mut Vec<u8>, record: &DnsRecord) -> (r: Result<(), DnsError>)
    ensures
        match r {
            Ok(()) => record_fits(record@) && final(v)@ == old(v)@ + record_bytes(record@),
            Err(e) => e == DnsError::LabelTooLong && !record_fits(record@) && final(v)@ == old(
                v,
            )@,
        },
{
    let ghost base = v@;
    match record {
        DnsRecord::UNKNOWN { .. } => {
            proof {
                assert(v@ =~= base + record_bytes(record@));
            }
            Ok(())
        },
        DnsRecord::A { preamble, ipv4 } => {
            match append_name(v, &preamble.rname) {
                Ok(()) => {},
                Err(e) => { return Err(e); },
            }
            append_u16(v, preamble.rtype.code());
            append_u16(v, 1);
            append_u32(v, preamble.ttl);
            append_u16(v, preamble.length);
            v.push(ipv4.o0);
            v.push(ipv4.o1);
            v.push(ipv4.o2);
            v.push(ipv4.o3);
            proof {
                assert(v@ =~= base + record_bytes(record@));
            }
            Ok(())
        },
    }
}

/// Packs one question at `index`. `LabelTooLong` exactly when a label of
/// its name is over 63 bytes; otherwise `BufferTooSmall` exactly when the
/// encoding does not fit; otherwise the encoding stands at `index` and
/// every byte outside it is unchanged.
pub fn pack_question(out: &mut Vec<u8>, index: usize, question: &DnsQuestion) -> (r: Result<
    usize,
    DnsError,
>)
    ensures
        match r {
            Ok(n) => {
                &&& name_fits(question@.qname)
                &&& index + question_bytes(question@).len() <= old(out)@.len()
                &&& n == index + question_bytes(question@).len()
                &&& final(out)@ == spliced(old(out)@, index as int, question_bytes(question@))
            },
            Err(e) => final(out)@ == old(out)@ && {
                if e == DnsError::LabelTooLong {
                    !name_fits(question@.qname)
                } else {
                    &&& e == DnsError::BufferTooSmall
                    &&& name_fits(question@.qname)
                    &&& index + question_bytes(question@).len() > old(out)@.len()
                }
            },
        },
{
    let mut v: Vec<u8> = Vec::new();
    match append_question(&mut v, question) {
        Ok(()) => {},
        Err(e) => { return Err(e); },
    }
    write_bytes(out, index, &v)
}

/// The wire bytes of a run of questions, in order.
pub open spec fn questions_bytes(qs: Seq<QuestionView>) -> Seq<u8>
    decreases qs.len(),
{
    if qs.len() == 0 {
        Seq::empty()
    } else {
        question_bytes(qs[0]) + questions_bytes(qs.drop_first())
    }
}

/// Every question's name is encodable.
pub open spec fn questions_fit(qs: Seq<QuestionView>) -> bool {
    forall|i: int| 0 <= i < qs.len() ==> name_fits((#[trigger] qs[i]).qname)
}

/// Appending one question to the encoding of a run.
proof fn lemma_questions_bytes_snoc(s: Seq<QuestionView>, i: int)
    requires
        0 <= i < s.len(),
    ensures
        questions_bytes(s.take(i + 1)) == questions_bytes(s.take(i)) + question_bytes(s[i]),
    decreases i,
{
    if i == 0 {
        assert(s.take(1).drop_first() =~= Seq::<QuestionView>::empty());
        assert(s.take(0) =~= Seq::<QuestionView>::empty());
        assert(s.take(1)[0] == s[0]);
        assert(questions_bytes(s.take(1).drop_first()) == Seq::<u8>::empty());
        assert(questions_bytes(s.take(1)) == question_bytes(s.take(1)[0]) + questions_bytes(
            s.take(1).drop_first(),
        ));
        assert(questions_bytes(s.take(1)) =~= Seq::empty() + question_bytes(s[0]));
    } else {
        let t = s.drop_first();
        lemma_questions_bytes_snoc(t, i - 1);
        assert(s.take(i + 1).drop_first() =~= t.take(i));
        assert(s.take(i).drop_first() =~= t.take(i - 1));
        assert(s.take(i + 1)[0] == s[0] && s.take(i)[0] == s[0]);
        assert(questions_bytes(s.take(i + 1)) =~= questions_bytes(s.take(i)) + question_bytes(
            s[i],
        ));
    }
}

/// Appends the encodings of a run of questions, in order, to a buffer
/// under construction; `LabelTooLong` exactly when some question's name has
/// a label over 63 bytes.
pub fn append_questions(v: &mut Vec<u8>, questions: &Vec<DnsQuestion>) -> (r: Result<(), DnsError>)
    ensures
        match r {
            Ok(()) => questions_fit(questions.deep_view()) && final(v)@ == old(v)@
                + questions_bytes(questions.deep_view()),
            Err(e) => e == DnsError::LabelTooLong && !questions_fit(questions.deep_view()),
        },
{
    let ghost dvq = questions.deep_view();
    let ghost base = v@;
    let mut i: usize = 0;
    while i < questions.len()
        invariant
            i <= dvq.len(),
            dvq == questions.deep_view(),
            dvq.len() == questions@.len(),
            v@ == base + questions_bytes(dvq.take(i as int)),
            forall|k: int| 0 <= k < i ==> name_fits((#[trigger] dvq[k]).qname),
        decreases questions@.len() - i,
    {
        match append_question(v, &questions[i]) {
            Ok(()) => {},
            Err(e) => {
                proof {
                    assert(!name_fits(dvq[i as int].qname));
                }
                return Err(e);
            },
        }
        proof {
            lemma_questions_bytes_snoc(dvq, i as int);
            assert(v@ =~= base + questions_bytes(dvq.take(i + 1)));
        }
        i = i + 1;
    }
    proof {
        assert(dvq.take(dvq.len() as int) =~= dvq);
    }
    Ok(())
}

/// Packs a run of questions at `index`, in order. `LabelTooLong` exactly
/// when some question's name has a label over 63 bytes; otherwise
/// `BufferTooSmall` exactly when the encodings do not fit; otherwise they
/// stand at `index` and every byte outside them is unchanged.
pub fn pack_questions(out: &mut Vec<u8>, index: usize, questions: &Vec<DnsQuestion>) -> (r: Result<
    usize,
    DnsError,
>)
    ensures
        match r {
            Ok(n) => {
                &&& questions_fit(questions.deep_view())
                &&& index + questions_bytes(questions.deep_view()).len() <= old(out)@.len()
                &&& n == index + questions_bytes(questions.deep_view()).len()
                &&& final(out)@ == spliced(
                    old(out)@,
                    index as int,
                    questions_bytes(questions.deep_view()),
                )
            },
            Err(e) => final(out)@ == old(out)@ && {
                if e == DnsError::LabelTooLong {
                    !questions_fit(questions.deep_view())
                } else {
                    &&& e == DnsError::BufferTooSmall
                    &&& questions_fit(questions.deep_view())
                    &&& index + questions_bytes(questions.deep_view()).len() > old(out)@.len()
                }
            },
        },
{
    let mut v: Vec<u8> = Vec::new();
    match append_questions(&mut v, questions) {
        Ok(()) => {},
        Err(e) => { return Err(e); },
    }
    write_bytes(out, index, &v)
}

/// An encoded question decodes back to itself: wherever
/// `question_bytes(q)` stands in a message, the question decoder returns
/// exactly `q` and stops just past the class bytes.
pub proof fn lemma_question_bytes_parse(b: Seq<u8>, pos: int, q: QuestionView)
    requires
        0 <= pos,
        name_wf(q.qname),
        pos + question_bytes(q).len() <= b.len(),
        b.subrange(pos, pos + question_bytes(q).len()) == question_bytes(q),
    ensures
        question_at(b, pos) == Ok::<_, DnsError>((q, pos + question_bytes(q).len())),
{
    let qb = question_bytes(q);
    let nb = name_bytes(q.qname);
    assert forall|k: int| 0 <= k < qb.len() implies b[pos + k] == qb[k] by {
        assert(b.subrange(pos, pos + qb.len())[k] == b[pos + k]);
    }
    assert(b.subrange(pos, pos + nb.len()) =~= nb) by {
        assert forall|i: int| 0 <= i < nb.len() implies b[pos + i] == nb[i] by {
            assert(qb[i] == nb[i]);
        }
    }
    lemma_name_bytes_parse(b, pos, q.qname, 0);
    let e1 = pos + nb.len();
    assert(b[e1] == qb[nb.len() as int] && b[e1 + 1] == qb[nb.len() as int + 1]);
    assert(qb[nb.len() as int] == (q.qtype / 256) as u8 && qb[nb.len() as int + 1] == (q.qtype
        % 256) as u8);
    assert(u16_of((q.qtype / 256) as u8, (q.qtype % 256) as u8) == q.qtype);
}

/// An encoded address record decodes back to itself: wherever
/// `record_bytes(r)` stands in a message, for a well-formed answer `r`, the
/// record decoder returns exactly `r` and stops just past the four address
/// bytes.
pub proof fn lemma_record_bytes_parse(b: Seq<u8>, pos: int, r: RecordView)
    requires
        0 <= pos,
        answer_wf(r),
        pos + record_bytes(r).len() <= b.len(),
        b.subrange(pos, pos + record_bytes(r).len()) == record_bytes(r),
    ensures
        record_at(b, pos) == Ok::<_, DnsError>((r, pos + record_bytes(r).len())),
{
    let rb = record_bytes(r);
    match r {
        RecordView::UNKNOWN { .. } => {
            assert(false);
        },
        RecordView::A { preamble, ipv4 } => {
            let nb = name_bytes(preamble.rname);
            assert forall|k: int| 0 <= k < rb.len() implies b[pos + k] == rb[k] by {
                assert(b.subrange(pos, pos + rb.len())[k] == b[pos + k]);
            }
            assert(b.subrange(pos, pos + nb.len()) =~= nb) by {
                assert forall|i: int| 0 <= i < nb.len() implies b[pos + i] == nb[i] by {
                    assert(rb[i] == nb[i]);
                }
            }
            lemma_name_bytes_parse(b, pos, preamble.rname, 0);
            let e1 = pos + nb.len();
            let m = nb.len() as int;
            assert(rb[m] == (1u16 / 256) as u8 && rb[m + 1] == (1u16 % 256) as u8);
            assert(u16_of(b[e1], b[e1 + 1]) == 1);
            assert(record_type_of(1) == RecordType::A);
            let t = preamble.ttl;
            assert(rb[m + 4] == (t / 0x1000000) as u8 && rb[m + 5] == ((t / 0x10000) % 256) as u8
                && rb[m + 6] == ((t / 256) % 256) as u8 && rb[m + 7] == (t % 256) as u8);
            assert(u32_of(
                (t / 0x1000000) as u8,
                ((t / 0x10000) % 256) as u8,
                ((t / 256) % 256) as u8,
                (t % 256) as u8,
            ) == t);
            assert(rb[m + 8] == (4u16 / 256) as u8 && rb[m + 9] == (4u16 % 256) as u8);
            assert(u16_of(b[e1 + 8], b[e1 + 9]) == 4);
            assert(rb[m + 10] == ipv4.o0 && rb[m + 11] == ipv4.o1 && rb[m + 12] == ipv4.o2 && rb[m
                + 13] == ipv4.o3);
        },
    }
}

} // verus!
