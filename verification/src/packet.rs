use vstd::prelude::*;

use crate::buffer::BytePacketBuffer;
use crate::buffer::MAX_BUFFER_SIZE;
use crate::buffer::lemma_splice_concat;
use crate::buffer::splice;
use crate::error::DnsError;
use crate::header::DnsHeader;
use crate::header::dec_header_at;
use crate::header::dec_header_ok;
use crate::question::DnsQuestion;
use crate::question::QuestionDec;
use crate::question::QuestionV;
use crate::question::dec_question;
use crate::question::enc_question;
use crate::record::DnsRecord;
use crate::record::RecordDec;
use crate::record::RecordV;
use crate::record::dec_record;
use crate::record::enc_record;
use crate::record::rec_labels_fit;
use crate::name::labels_fit;
use vstd::utf8::encode_utf8;

verus! {

/// A whole DNS message: header, questions, and the three record
/// sections, in their wire order.
#[derive(Clone, Debug, PartialEq, Eq)]
pub struct DnsPacket {
    pub header: DnsHeader,
    pub questions: Vec<DnsQuestion>,
    pub answers: Vec<DnsRecord>,
    pub authorities: Vec<DnsRecord>,
    pub resources: Vec<DnsRecord>,
}

/// The mathematical shape of a message.
pub struct PacketV {
    pub header: DnsHeader,
    pub questions: Seq<QuestionV>,
    pub answers: Seq<RecordV>,
    pub authorities: Seq<RecordV>,
    pub resources: Seq<RecordV>,
}

/// The views of a question list.
pub open spec fn questions_view(v: Seq<DnsQuestion>) -> Seq<QuestionV> {
    Seq::new(v.len(), |i: int| v[i]@)
}

/// The views of a record list.
pub open spec fn records_view(v: Seq<DnsRecord>) -> Seq<RecordV> {
    Seq::new(v.len(), |i: int| v[i]@)
}

impl View for DnsPacket {
    type V = PacketV;

    open spec fn view(&self) -> PacketV {
        PacketV {
            header: self.header,
            questions: questions_view(self.questions@),
            answers: records_view(self.answers@),
            authorities: records_view(self.authorities@),
            resources: records_view(self.resources@),
        }
    }
}

impl Default for DnsPacket {
    fn default() -> (r: Self)
        ensures
            r.header == DnsHeader::blank(),
            r@.questions.len() == 0,
            r@.answers.len() == 0,
            r@.authorities.len() == 0,
            r@.resources.len() == 0,
    {
        DnsPacket {
            header: Default::default(),
            questions: Vec::new(),
            answers: Vec::new(),
            authorities: Vec::new(),
            resources: Vec::new(),
        }
    }
}

impl DnsPacket {
    /// The header's counts agree with the sections, and the header is
    /// well formed: what every encoded message keeps true.
    pub open spec fn wf(&self) -> bool {
        &&& self.header.wf()
        &&& self.header.questions == self.questions@.len()
        &&& self.header.answers == self.answers@.len()
        &&& self.header.authoritative_entries == self.authorities@.len()
        &&& self.header.resource_entries == self.resources@.len()
    }
}

/// Every section is small enough for its 16-bit count field.
pub open spec fn countable(p: PacketV) -> bool {
    &&& p.questions.len() <= 0xFFFF
    &&& p.answers.len() <= 0xFFFF
    &&& p.authorities.len() <= 0xFFFF
    &&& p.resources.len() <= 0xFFFF
}

/// The message with its header counts set to the actual section lengths:
/// what the encoder puts on the wire, whatever counts the caller left in
/// the header.
pub open spec fn counted(p: PacketV) -> PacketV {
    PacketV {
        header: DnsHeader {
            questions: p.questions.len() as u16,
            answers: p.answers.len() as u16,
            authoritative_entries: p.authorities.len() as u16,
            resource_entries: p.resources.len() as u16,
            ..p.header
        },
        ..p
    }
}

// ---------------------------------------------------------------------
// Decoding a whole message.
// ---------------------------------------------------------------------
/// How a question-list decode ends.
pub enum QuestionsDec {
    Done { qs: Seq<QuestionV>, end: int },
    Fail(DnsError),
}

/// How a record-list decode ends.
pub enum RecordsDec {
    Done { rs: Seq<RecordV>, end: int },
    Fail(DnsError),
}

/// How a message decode ends.
pub enum PacketDec {
    Done { p: PacketV, end: int },
    Fail(DnsError),
}

/// `n` questions, one after the other.
pub open spec fn dec_questions(buf: Seq<u8>, pos: int, n: nat) -> QuestionsDec
    decreases n,
{
    if n == 0 {
        QuestionsDec::Done { qs: seq![], end: pos }
    } else {
        match dec_question(buf, pos) {
            QuestionDec::Done { q, end } => match dec_questions(buf, end, (n - 1) as nat) {
                QuestionsDec::Done { qs, end: e2 } => QuestionsDec::Done {
                    qs: seq![q] + qs,
                    end: e2,
                },
                f => f,
            },
            QuestionDec::Fail(k) => QuestionsDec::Fail(k),
        }
    }
}

/// `n` records, one after the other.
pub open spec fn dec_records(buf: Seq<u8>, pos: int, n: nat) -> RecordsDec
    decreases n,
{
    if n == 0 {
        RecordsDec::Done { rs: seq![], end: pos }
    } else {
        match dec_record(buf, pos) {
            RecordDec::Done { rec, end } => match dec_records(buf, end, (n - 1) as nat) {
                RecordsDec::Done { rs, end: e2 } => RecordsDec::Done { rs: seq![rec] + rs, end: e2 },
                f => f,
            },
            RecordDec::Fail(k) => RecordsDec::Fail(k),
        }
    }
}

/// The message starting at `pos`: a header, then exactly the counted
/// questions, answers, authority and additional records, in that order.
/// Any failure part way abandons the whole decode.
pub open spec fn dec_packet(buf: Seq<u8>, pos: int) -> PacketDec {
    if pos + 12 > buf.len() {
        PacketDec::Fail(DnsError::BoundsError)
    } else if !dec_header_ok(buf, pos) {
        PacketDec::Fail(DnsError::MalformedResultCode)
    } else {
        let h = dec_header_at(buf, pos);
        match dec_questions(buf, pos + 12, h.questions as nat) {
            QuestionsDec::Fail(k) => PacketDec::Fail(k),
            QuestionsDec::Done { qs, end: e1 } => match dec_records(buf, e1, h.answers as nat) {
                RecordsDec::Fail(k) => PacketDec::Fail(k),
                RecordsDec::Done { rs: ans, end: e2 } => match dec_records(
                    buf,
                    e2,
                    h.authoritative_entries as nat,
                ) {
                    RecordsDec::Fail(k) => PacketDec::Fail(k),
                    RecordsDec::Done { rs: auth, end: e3 } => match dec_records(
                        buf,
                        e3,
                        h.resource_entries as nat,
                    ) {
                        RecordsDec::Fail(k) => PacketDec::Fail(k),
                        RecordsDec::Done { rs: res, end: e4 } => PacketDec::Done {
                            p: PacketV {
                                header: h,
                                questions: qs,
                                answers: ans,
                                authorities: auth,
                                resources: res,
                            },
                            end: e4,
                        },
                    },
                },
            },
        }
    }
}

/// Questions already read go in front of whatever the rest decodes to.
pub open spec fn qs_prepend(pre: Seq<QuestionV>, d: QuestionsDec) -> QuestionsDec {
    match d {
        QuestionsDec::Done { qs, end } => QuestionsDec::Done { qs: pre + qs, end },
        QuestionsDec::Fail(k) => QuestionsDec::Fail(k),
    }
}

/// Records already read go in front of whatever the rest decodes to.
pub open spec fn rs_prepend(pre: Seq<RecordV>, d: RecordsDec) -> RecordsDec {
    match d {
        RecordsDec::Done { rs, end } => RecordsDec::Done { rs: pre + rs, end },
        RecordsDec::Fail(k) => RecordsDec::Fail(k),
    }
}

proof fn lemma_qs_prepend_assoc(a: Seq<QuestionV>, b: Seq<QuestionV>, d: QuestionsDec)
    ensures
        qs_prepend(a, qs_prepend(b, d)) == qs_prepend(a + b, d),
{
    match d {
        QuestionsDec::Done { qs, end } => {
            assert(a + (b + qs) =~= (a + b) + qs);
        },
        QuestionsDec::Fail(_) => {},
    }
}

proof fn lemma_rs_prepend_assoc(a: Seq<RecordV>, b: Seq<RecordV>, d: RecordsDec)
    ensures
        rs_prepend(a, rs_prepend(b, d)) == rs_prepend(a + b, d),
{
    match d {
        RecordsDec::Done { rs, end } => {
            assert(a + (b + rs) =~= (a + b) + rs);
        },
        RecordsDec::Fail(_) => {},
    }
}

// ---------------------------------------------------------------------
// Encoding a whole message.
// ---------------------------------------------------------------------
/// A question list's bytes on the wire.
pub open spec fn enc_questions(qs: Seq<QuestionV>) -> Seq<u8>
    decreases qs.len(),
{
    if qs.len() == 0 {
        Seq::empty()
    } else {
        enc_question(qs[0]) + enc_questions(qs.drop_first())
    }
}

/// A record list's bytes on the wire.
pub open spec fn enc_records(rs: Seq<RecordV>) -> Seq<u8>
    decreases rs.len(),
{
    if rs.len() == 0 {
        Seq::empty()
    } else {
        enc_record(rs[0]) + enc_records(rs.drop_first())
    }
}

/// A whole message's bytes on the wire: the header, then each section in
/// order.
pub open spec fn enc_packet(p: PacketV) -> Seq<u8> {
    p.header.enc() + enc_questions(p.questions) + enc_records(p.answers) + enc_records(
        p.authorities,
    ) + enc_records(p.resources)
}

/// Every name anywhere in the message fits the per-label wire limit.
pub open spec fn pkt_labels_fit(p: PacketV) -> bool {
    &&& forall|i: int|
        0 <= i < p.questions.len() ==> labels_fit(encode_utf8(#[trigger] p.questions[i].name))
    &&& forall|i: int| 0 <= i < p.answers.len() ==> rec_labels_fit(#[trigger] p.answers[i])
    &&& forall|i: int| 0 <= i < p.authorities.len() ==> rec_labels_fit(#[trigger] p.authorities[i])
    &&& forall|i: int| 0 <= i < p.resources.len() ==> rec_labels_fit(#[trigger] p.resources[i])
}

/// Encoding one more question appends its wire form.
proof fn lemma_enc_questions_take(qs: Seq<QuestionV>, j: int)
    requires
        0 <= j < qs.len(),
    ensures
        enc_questions(qs.take(j + 1)) == enc_questions(qs.take(j)) + enc_question(qs[j]),
    decreases j,
{
    if j == 0 {
        assert(qs.take(1).drop_first() =~= Seq::<QuestionV>::empty());
        assert(qs.take(0) =~= Seq::<QuestionV>::empty());
        assert(enc_questions(qs.take(1)) =~= enc_questions(qs.take(0)) + enc_question(qs[0]));
    } else {
        lemma_enc_questions_take(qs.drop_first(), j - 1);
        assert(qs.take(j + 1).drop_first() =~= qs.drop_first().take(j));
        assert(qs.take(j).drop_first() =~= qs.drop_first().take(j - 1));
        assert(enc_question(qs[0]) + (enc_questions(qs.drop_first().take(j - 1)) + enc_question(
            qs[j],
        )) =~= (enc_question(qs[0]) + enc_questions(qs.drop_first().take(j - 1))) + enc_question(
            qs[j],
        ));
    }
}

/// Encoding one more record appends its wire form.
proof fn lemma_enc_records_take(rs: Seq<RecordV>, j: int)
    requires
        0 <= j < rs.len(),
    ensures
        enc_records(rs.take(j + 1)) == enc_records(rs.take(j)) + enc_record(rs[j]),
    decreases j,
{
    if j == 0 {
        assert(rs.take(1).drop_first() =~= Seq::<RecordV>::empty());
        assert(rs.take(0) =~= Seq::<RecordV>::empty());
        assert(enc_records(rs.take(1)) =~= enc_records(rs.take(0)) + enc_record(rs[0]));
    } else {
        lemma_enc_records_take(rs.drop_first(), j - 1);
        assert(rs.take(j + 1).drop_first() =~= rs.drop_first().take(j));
        assert(rs.take(j).drop_first() =~= rs.drop_first().take(j - 1));
        assert(enc_record(rs[0]) + (enc_records(rs.drop_first().take(j - 1)) + enc_record(rs[j]))
            =~= (enc_record(rs[0]) + enc_records(rs.drop_first().take(j - 1))) + enc_record(rs[j]));
    }
}

/// A prefix of the question list never encodes longer than the whole.
proof fn lemma_enc_questions_mono(qs: Seq<QuestionV>, j: int)
    requires
        0 <= j <= qs.len(),
    ensures
        enc_questions(qs.take(j)).len() <= enc_questions(qs).len(),
    decreases qs.len() - j,
{
    if j == qs.len() {
        assert(qs.take(j) =~= qs);
    } else {
        lemma_enc_questions_take(qs, j);
        lemma_enc_questions_mono(qs, j + 1);
    }
}

/// A prefix of the record list never encodes longer than the whole.
proof fn lemma_enc_records_mono(rs: Seq<RecordV>, j: int)
    requires
        0 <= j <= rs.len(),
    ensures
        enc_records(rs.take(j)).len() <= enc_records(rs).len(),
    decreases rs.len() - j,
{
    if j == rs.len() {
        assert(rs.take(j) =~= rs);
    } else {
        lemma_enc_records_take(rs, j);
        lemma_enc_records_mono(rs, j + 1);
    }
}

impl BytePacketBuffer {
    /// Decode `n` records in a row at the cursor.
    fn read_records(&mut self, n: u16) -> (r: Result<Vec<DnsRecord>, DnsError>)
        requires
            old(self).wf(),
        ensures
            final(self).wf(),
            final(self).buf == old(self).buf,
            match dec_records(old(self).buf@, old(self).pos as int, n as nat) {
                RecordsDec::Done { rs, end } => r is Ok && records_view(r.unwrap()@) == rs && final(self).pos == end,
                RecordsDec::Fail(k) => r == Err::<Vec<DnsRecord>, DnsError>(k),
            },
    {
        let ghost buf0 = self.buf@;
        let ghost start = self.pos as int;
        let mut out: Vec<DnsRecord> = Vec::new();
        let mut i: u16 = 0;
        proof {
            assert(records_view(out@) =~= Seq::<RecordV>::empty());
            assert(rs_prepend(seq![], dec_records(buf0, start, n as nat)) == dec_records(
                buf0,
                start,
                n as nat,
            )) by {
                match dec_records(buf0, start, n as nat) {
                    RecordsDec::Done { rs, end } => {
                        assert(seq![].add(rs) =~= rs);
                    },
                    RecordsDec::Fail(_) => {},
                }
            }
        }
        while i < n
            invariant
                i <= n,
                self.wf(),
                self.buf == old(self).buf,
                buf0 == old(self).buf@,
                start == old(self).pos,
                out@.len() == i,
                dec_records(buf0, start, n as nat) == rs_prepend(
                    records_view(out@),
                    dec_records(buf0, self.pos as int, (n - i) as nat),
                ),
            decreases n - i,
        {
            let ghost pre = records_view(out@);
            let ghost rest = dec_records(buf0, self.pos as int, (n - i) as nat);
            let rec = self.read_record()?;
            out.push(rec);
            i = i + 1;
            proof {
                assert(records_view(out@) =~= pre.push(rec@));
                lemma_rs_prepend_assoc(pre, seq![rec@], dec_records(buf0, self.pos as int, (n
                    - i) as nat));
                assert(pre + seq![rec@] =~= pre.push(rec@));
            }
        }
        Ok(out)
    }

    /// Decode a whole message at the cursor; see [`dec_packet`] for its
    /// exact shape.  Any failure abandons the decode: no partial message
    /// is returned.
    pub fn read_packet(&mut self) -> (r: Result<DnsPacket, DnsError>)
        requires
            old(self).wf(),
        ensures
            final(self).wf(),
            final(self).buf == old(self).buf,
            match dec_packet(old(self).buf@, old(self).pos as int) {
                PacketDec::Done { p, end } => r is Ok && r.unwrap()@ == p && final(self).pos == end,
                PacketDec::Fail(k) => r == Err::<DnsPacket, DnsError>(k),
            },
    {
        let ghost buf0 = self.buf@;
        let ghost start = self.pos as int;
        let header = self.read_header()?;
        let mut questions: Vec<DnsQuestion> = Vec::new();
        let mut i: u16 = 0;
        proof {
            assert(questions_view(questions@) =~= Seq::<QuestionV>::empty());
            match dec_questions(buf0, start + 12, header.questions as nat) {
                QuestionsDec::Done { qs, end } => {
                    assert(seq![].add(qs) =~= qs);
                },
                QuestionsDec::Fail(_) => {},
            }
        }
        while i < header.questions
            invariant
                i <= header.questions,
                self.wf(),
                self.buf == old(self).buf,
                buf0 == old(self).buf@,
                start == old(self).pos,
                old(self).wf(),
                old(self).pos + 12 <= MAX_BUFFER_SIZE,
                dec_header_ok(old(self).buf@, old(self).pos as int),
                header == dec_header_at(old(self).buf@, old(self).pos as int),
                questions@.len() == i,
                dec_questions(buf0, start + 12, header.questions as nat) == qs_prepend(
                    questions_view(questions@),
                    dec_questions(buf0, self.pos as int, (header.questions - i) as nat),
                ),
            decreases header.questions - i,
        {
            let ghost pre = questions_view(questions@);
            let q = self.read_question()?;
            questions.push(q);
            i = i + 1;
            proof {
                assert(questions_view(questions@) =~= pre.push(q@));
                lemma_qs_prepend_assoc(
                    pre,
                    seq![q@],
                    dec_questions(buf0, self.pos as int, (header.questions - i) as nat),
                );
                assert(pre + seq![q@] =~= pre.push(q@));
            }
        }
        let answers = self.read_records(header.answers)?;
        let authorities = self.read_records(header.authoritative_entries)?;
        let resources = self.read_records(header.resource_entries)?;
        Ok(DnsPacket { header, questions, answers, authorities, resources })
    }

    /// Encode a question list at the cursor, in order.
    fn write_questions(&mut self, qs: &Vec<DnsQuestion>) -> (r: Result<(), DnsError>)
        requires
            old(self).wf(),
        ensures
            final(self).wf(),
            forall|i: int|
                0 <= i < old(self).pos && i < MAX_BUFFER_SIZE ==> final(self).buf@[i] == old(self).buf@[i],
            ({
                let qsv = questions_view(qs@);
                &&& (qsv.len() > 0 && !labels_fit(encode_utf8(qsv[0].name)) ==> r == Err::<
                    (),
                    DnsError,
                >(DnsError::LabelTooLong))
                &&& ((forall|i: int|
                    0 <= i < qsv.len() ==> labels_fit(encode_utf8(#[trigger] qsv[i].name))) && old(self).pos + enc_questions(qsv).len() <= MAX_BUFFER_SIZE ==> r == Ok::<(), DnsError>(())
                    && final(self).buf@ == splice(
                    old(self).buf@,
                    old(self).pos as int,
                    enc_questions(qsv),
                ) && final(self).pos == old(self).pos + enc_questions(qsv).len())
                &&& (r is Err ==> r == Err::<(), DnsError>(DnsError::LabelTooLong) || r == Err::<
                    (),
                    DnsError,
                >(DnsError::BoundsError))
                &&& ((forall|i: int|
                    0 <= i < qsv.len() ==> labels_fit(encode_utf8(#[trigger] qsv[i].name))) ==> (r
                    is Err ==> r == Err::<(), DnsError>(DnsError::BoundsError)))
                &&& (old(self).pos + enc_questions(qsv).len() <= MAX_BUFFER_SIZE ==> (r is Err
                    ==> r == Err::<(), DnsError>(DnsError::LabelTooLong)))
                &&& (r is Ok ==> final(self).buf@ == splice(
                    old(self).buf@,
                    old(self).pos as int,
                    enc_questions(qsv),
                ) && final(self).pos == old(self).pos + enc_questions(qsv).len() && (forall|i: int|
                    0 <= i < qsv.len() ==> labels_fit(encode_utf8(#[trigger] qsv[i].name))) && (old(self).pos <= MAX_BUFFER_SIZE ==> final(self).pos <= MAX_BUFFER_SIZE))
            }),
    {
        let ghost qsv = questions_view(qs@);
        let ghost buf0 = self.buf@;
        let ghost sp = self.pos as int;
        let mut k: usize = 0;
        proof {
            assert(qsv.take(0) =~= Seq::<QuestionV>::empty());
            assert(splice(buf0, sp, Seq::<u8>::empty()) =~= buf0);
        }
        while k < qs.len()
            invariant
                k <= qs@.len(),
                qsv == questions_view(qs@),
                buf0 == old(self).buf@,
                sp == old(self).pos,
                old(self).wf(),
                self.wf(),
                self.pos as int == sp + enc_questions(qsv.take(k as int)).len(),
                self.buf@ == splice(buf0, sp, enc_questions(qsv.take(k as int))),
                self.pos <= MAX_BUFFER_SIZE || self.pos as int == sp,
                forall|i: int| 0 <= i < k ==> labels_fit(encode_utf8(#[trigger] qsv[i].name)),
            decreases qs@.len() - k,
        {
            proof {
                lemma_enc_questions_take(qsv, k as int);
                lemma_enc_questions_mono(qsv, k as int + 1);
            }
            let q = &qs[k];
            proof {
                lemma_splice_concat(buf0, sp, enc_questions(qsv.take(k as int)), enc_question(q@));
            }
            self.write_question_ref(q)?;
            k = k + 1;
        }
        proof {
            assert(qsv.take(qs@.len() as int) =~= qsv);
        }
        Ok(())
    }

    /// Encode a record list at the cursor, in order.
    fn write_records(&mut self, recs: &Vec<DnsRecord>) -> (r: Result<(), DnsError>)
        requires
            old(self).wf(),
        ensures
            final(self).wf(),
            forall|i: int|
                0 <= i < old(self).pos && i < MAX_BUFFER_SIZE ==> final(self).buf@[i] == old(self).buf@[i],
            ({
                let rsv = records_view(recs@);
                &&& ((forall|i: int| 0 <= i < rsv.len() ==> rec_labels_fit(#[trigger] rsv[i]))
                    && old(self).pos + enc_records(rsv).len() <= MAX_BUFFER_SIZE ==> r == Ok::<
                    (),
                    DnsError,
                >(()) && final(self).buf@ == splice(
                    old(self).buf@,
                    old(self).pos as int,
                    enc_records(rsv),
                ) && final(self).pos == old(self).pos + enc_records(rsv).len())
                &&& (r is Err ==> r == Err::<(), DnsError>(DnsError::LabelTooLong) || r == Err::<
                    (),
                    DnsError,
                >(DnsError::BoundsError))
                &&& ((forall|i: int| 0 <= i < rsv.len() ==> rec_labels_fit(#[trigger] rsv[i]))
                    ==> (r is Err ==> r == Err::<(), DnsError>(DnsError::BoundsError)))
                &&& (old(self).pos + enc_records(rsv).len() <= MAX_BUFFER_SIZE ==> (r is Err ==> r
                    == Err::<(), DnsError>(DnsError::LabelTooLong)))
                &&& (r is Ok ==> final(self).buf@ == splice(
                    old(self).buf@,
                    old(self).pos as int,
                    enc_records(rsv),
                ) && final(self).pos == old(self).pos + enc_records(rsv).len() && (forall|i: int|
                    0 <= i < rsv.len() ==> rec_labels_fit(#[trigger] rsv[i])) && (old(self).pos
                    <= MAX_BUFFER_SIZE ==> final(self).pos <= MAX_BUFFER_SIZE))
            }),
    {
        let ghost rsv = records_view(recs@);
        let ghost buf0 = self.buf@;
        let ghost sp = self.pos as int;
        let mut k: usize = 0;
        proof {
            assert(rsv.take(0) =~= Seq::<RecordV>::empty());
            assert(splice(buf0, sp, Seq::<u8>::empty()) =~= buf0);
        }
        while k < recs.len()
            invariant
                k <= recs@.len(),
                rsv == records_view(recs@),
                buf0 == old(self).buf@,
                sp == old(self).pos,
                old(self).wf(),
                self.wf(),
                self.pos as int == sp + enc_records(rsv.take(k as int)).len(),
                self.buf@ == splice(buf0, sp, enc_records(rsv.take(k as int))),
                self.pos <= MAX_BUFFER_SIZE || self.pos as int == sp,
                forall|i: int| 0 <= i < k ==> rec_labels_fit(#[trigger] rsv[i]),
            decreases recs@.len() - k,
        {
            proof {
                lemma_enc_records_take(rsv, k as int);
                lemma_enc_records_mono(rsv, k as int + 1);
            }
            let rec = &recs[k];
            proof {
                assert(rsv[k as int] == rec@);
                lemma_splice_concat(buf0, sp, enc_records(rsv.take(k as int)), enc_record(rec@));
            }
            if rec.is_unknown() {
                let _n = self.write_record_ref(rec)?;
                proof {
                    assert(enc_records(rsv.take(k as int)) + enc_record(rec@) =~= enc_records(
                        rsv.take(k as int),
                    ));
                }
            } else {
                let _n = self.write_record_ref(rec)?;
            }
            k = k + 1;
        }
        proof {
            assert(rsv.take(recs@.len() as int) =~= rsv);
        }
        Ok(())
    }

    /// Encode a whole message at the cursor: the header, then each
    /// section in order.  The encoder itself keeps the header's four
    /// counts in step with the sections: it writes the actual section
    /// lengths, whatever counts the caller left in the header.  A section
    /// too long for its 16-bit count field cannot go on the wire at all.
    #[verifier::rlimit(60)]
    pub fn write_packet(&mut self, packet: DnsPacket) -> (r: Result<(), DnsError>)
        requires
            old(self).wf(),
            packet.header.wf(),
        ensures
            final(self).wf(),
            forall|i: int|
                0 <= i < old(self).pos && i < MAX_BUFFER_SIZE ==> final(self).buf@[i] == old(self).buf@[i],
            !countable(packet@) ==> r == Err::<(), DnsError>(DnsError::BoundsError) && *final(self)
                == *old(self),
            countable(packet@) && pkt_labels_fit(packet@) && old(self).pos + enc_packet(
                counted(packet@),
            ).len() <= MAX_BUFFER_SIZE ==> r == Ok::<(), DnsError>(()),
            r is Err ==> r == Err::<(), DnsError>(DnsError::LabelTooLong) || r == Err::<
                (),
                DnsError,
            >(DnsError::BoundsError),
            pkt_labels_fit(packet@) ==> (r is Err ==> r == Err::<(), DnsError>(
                DnsError::BoundsError,
            )),
            countable(packet@) && old(self).pos + enc_packet(counted(packet@)).len()
                <= MAX_BUFFER_SIZE ==> (r is Err ==> r == Err::<(), DnsError>(
                DnsError::LabelTooLong,
            )),
            countable(packet@) && packet@.questions.len() > 0 && !labels_fit(
                encode_utf8(packet@.questions[0].name),
            ) && old(self).pos + 12 <= MAX_BUFFER_SIZE ==> r == Err::<(), DnsError>(
                DnsError::LabelTooLong,
            ),
            r is Ok ==> countable(packet@) && pkt_labels_fit(packet@) && final(self).buf@ == splice(
                old(self).buf@,
                old(self).pos as int,
                enc_packet(counted(packet@)),
            ) && final(self).pos == old(self).pos + enc_packet(counted(packet@)).len() && final(self).pos <= MAX_BUFFER_SIZE,
    {
        if packet.questions.len() > 0xFFFF || packet.answers.len() > 0xFFFF
            || packet.authorities.len() > 0xFFFF || packet.resources.len() > 0xFFFF {
            return Err(DnsError::BoundsError);
        }
        let mut header = packet.header;
        header.questions = packet.questions.len() as u16;
        header.answers = packet.answers.len() as u16;
        header.authoritative_entries = packet.authorities.len() as u16;
        header.resource_entries = packet.resources.len() as u16;
        let ghost buf0 = self.buf@;
        let ghost sp = self.pos as int;
        let ghost pv = counted(packet@);
        proof {
            assert(header == pv.header);
        }
        self.write_header(header)?;
        proof {
            lemma_splice_concat(buf0, sp, pv.header.enc(), enc_questions(pv.questions));
        }
        self.write_questions(&packet.questions)?;
        proof {
            lemma_splice_concat(
                buf0,
                sp,
                pv.header.enc() + enc_questions(pv.questions),
                enc_records(pv.answers),
            );
        }
        self.write_records(&packet.answers)?;
        proof {
            lemma_splice_concat(
                buf0,
                sp,
                pv.header.enc() + enc_questions(pv.questions) + enc_records(pv.answers),
                enc_records(pv.authorities),
            );
        }
        self.write_records(&packet.authorities)?;
        proof {
            lemma_splice_concat(
                buf0,
                sp,
                pv.header.enc() + enc_questions(pv.questions) + enc_records(pv.answers)
                    + enc_records(pv.authorities),
                enc_records(pv.resources),
            );
        }
        self.write_records(&packet.resources)?;
        Ok(())
    }
}

/// A question-list decode yields exactly the asked-for count.
proof fn lemma_dec_questions_len(buf: Seq<u8>, pos: int, n: nat)
    ensures
        match dec_questions(buf, pos, n) {
            QuestionsDec::Done { qs, .. } => qs.len() == n,
            QuestionsDec::Fail(_) => true,
        },
    decreases n,
{
    if n > 0 {
        match dec_question(buf, pos) {
            QuestionDec::Done { q, end } => {
                lemma_dec_questions_len(buf, end, (n - 1) as nat);
            },
            QuestionDec::Fail(_) => {},
        }
    }
}

/// A record-list decode yields exactly the asked-for count.
proof fn lemma_dec_records_len(buf: Seq<u8>, pos: int, n: nat)
    ensures
        match dec_records(buf, pos, n) {
            RecordsDec::Done { rs, .. } => rs.len() == n,
            RecordsDec::Fail(_) => true,
        },
    decreases n,
{
    if n > 0 {
        match dec_record(buf, pos) {
            RecordDec::Done { rec, end } => {
                lemma_dec_records_len(buf, end, (n - 1) as nat);
            },
            RecordDec::Fail(_) => {},
        }
    }
}

/// A decoded message is well formed: its header's counts are exactly the
/// section lengths, and its opcode fits four bits.
pub proof fn lemma_dec_packet_wf(buf: Seq<u8>, pos: int)
    ensures
        match dec_packet(buf, pos) {
            PacketDec::Done { p, .. } => {
                &&& p.header.wf()
                &&& p.questions.len() == p.header.questions
                &&& p.answers.len() == p.header.answers
                &&& p.authorities.len() == p.header.authoritative_entries
                &&& p.resources.len() == p.header.resource_entries
            },
            PacketDec::Fail(_) => true,
        },
{
    if pos + 12 <= buf.len() && dec_header_ok(buf, pos) {
        let h = dec_header_at(buf, pos);
        let a = buf[pos + 2];
        assert(((a >> 3) & 0x0F) < 16) by (bit_vector);
        lemma_dec_questions_len(buf, pos + 12, h.questions as nat);
        match dec_questions(buf, pos + 12, h.questions as nat) {
            QuestionsDec::Done { qs, end: e1 } => {
                lemma_dec_records_len(buf, e1, h.answers as nat);
                match dec_records(buf, e1, h.answers as nat) {
                    RecordsDec::Done { rs: ans, end: e2 } => {
                        lemma_dec_records_len(buf, e2, h.authoritative_entries as nat);
                        match dec_records(buf, e2, h.authoritative_entries as nat) {
                            RecordsDec::Done { rs: auth, end: e3 } => {
                                lemma_dec_records_len(buf, e3, h.resource_entries as nat);
                            },
                            RecordsDec::Fail(_) => {},
                        }
                    },
                    RecordsDec::Fail(_) => {},
                }
            },
            QuestionsDec::Fail(_) => {},
        }
    }
}

impl DnsRecord {
    /// Whether this is the unrecognized-type fallback.
    pub fn is_unknown(&self) -> (r: bool)
        ensures
            r == (self@ is Unknown),
    {
        match self {
            DnsRecord::Unknown { .. } => true,
            _ => false,
        }
    }
}

} // verus!
