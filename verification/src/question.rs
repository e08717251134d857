use vstd::prelude::*;

use vstd::utf8::encode_utf8;

use crate::buffer::BytePacketBuffer;
use crate::buffer::MAX_BUFFER_SIZE;
use crate::buffer::be16;
use crate::buffer::combine16;
use crate::buffer::lemma_splice_concat;
use crate::buffer::splice;
use crate::error::DnsError;
use crate::name::NameDec;
use crate::name::dec_name;
use crate::name::enc_name;
use crate::name::labels_fit;
use crate::name::name_view;

verus! {

/// The record types this model interprets, plus an open fallback that
/// carries any other type code through losslessly.
#[derive(PartialEq, Eq, Structural, Debug, Clone, Hash, Copy)]
pub enum QueryType {
    Unknown(u16),
    A,
    NS,
    CNAME,
    MX,
    AAAA,
}

impl QueryType {
    /// The type's numeric code on the wire.
    pub open spec fn spec_num(self) -> u16 {
        match self {
            QueryType::Unknown(x) => x,
            QueryType::A => 1,
            QueryType::NS => 2,
            QueryType::CNAME => 5,
            QueryType::MX => 15,
            QueryType::AAAA => 28,
        }
    }

    /// The type a numeric code stands for; codes outside the closed set
    /// become `Unknown` and round-trip losslessly.
    pub open spec fn spec_of_num(num: u16) -> QueryType {
        match num {
            1 => QueryType::A,
            2 => QueryType::NS,
            5 => QueryType::CNAME,
            15 => QueryType::MX,
            28 => QueryType::AAAA,
            _ => QueryType::Unknown(num),
        }
    }

    /// The type is what its own code decodes to: an `Unknown` value never
    /// shadows a code of the closed set.
    pub open spec fn is_canonical(self) -> bool {
        QueryType::spec_of_num(self.spec_num()) == self
    }

    /// The type's numeric code on the wire.
    pub fn to_num(&self) -> (r: u16)
        ensures
            r == self.spec_num(),
    {
        match *self {
            QueryType::Unknown(x) => x,
            QueryType::A => 1,
            QueryType::NS => 2,
            QueryType::CNAME => 5,
            QueryType::MX => 15,
            QueryType::AAAA => 28,
        }
    }

    /// The type a numeric code stands for.
    pub fn from_num(num: u16) -> (r: QueryType)
        ensures
            r == QueryType::spec_of_num(num),
            r.is_canonical(),
    {
        match num {
            1 => QueryType::A,
            2 => QueryType::NS,
            5 => QueryType::CNAME,
            15 => QueryType::MX,
            28 => QueryType::AAAA,
            _ => QueryType::Unknown(num),
        }
    }
}

/// One question: a domain name (case-folded to lower case on decode) and
/// a query type.  The class field is read but not kept, and written as
/// the fixed Internet class.
#[derive(Debug, Clone, PartialEq, Eq)]
pub struct DnsQuestion {
    pub name: String,
    pub qtype: QueryType,
}

/// The mathematical shape of a question.
pub struct QuestionV {
    pub name: Seq<char>,
    pub qtype: QueryType,
}

impl View for DnsQuestion {
    type V = QuestionV;

    open spec fn view(&self) -> QuestionV {
        QuestionV { name: self.name@, qtype: self.qtype }
    }
}

/// How a question decode ends.
pub enum QuestionDec {
    Done { q: QuestionV, end: int },
    Fail(DnsError),
}

/// The question starting at `pos`: a name, a type code, and a class that
/// is read and dropped.
pub open spec fn dec_question(buf: Seq<u8>, pos: int) -> QuestionDec {
    match dec_name(buf, pos) {
        NameDec::Done { labels, end } => if end + 4 <= buf.len() {
            QuestionDec::Done {
                q: QuestionV {
                    name: name_view(labels),
                    qtype: QueryType::spec_of_num(combine16(buf[end], buf[end + 1])),
                },
                end: end + 4,
            }
        } else {
            QuestionDec::Fail(DnsError::BoundsError)
        },
        NameDec::Fail(k) => QuestionDec::Fail(k),
    }
}

/// A question's bytes on the wire: the name, the type code, and the
/// Internet class.
pub open spec fn enc_question(q: QuestionV) -> Seq<u8> {
    enc_name(encode_utf8(q.name)) + be16(q.qtype.spec_num()) + be16(1u16)
}

impl BytePacketBuffer {
    /// Decode one question at the cursor.  On failure the buffer is
    /// unchanged and the whole message decode is abandoned.
    pub fn read_question(&mut self) -> (r: Result<DnsQuestion, DnsError>)
        requires
            old(self).wf(),
        ensures
            final(self).wf(),
            final(self).buf == old(self).buf,
            match dec_question(old(self).buf@, old(self).pos as int) {
                QuestionDec::Done { q, end } => r is Ok && r.unwrap()@ == q && final(self).pos
                    == end,
                QuestionDec::Fail(k) => r == Err::<DnsQuestion, DnsError>(k),
            },
    {
        let name = self.read_qname()?;
        let qt_num = self.read_u16()?;
        let _class: u16 = self.read_u16()?;
        Ok(DnsQuestion { name, qtype: QueryType::from_num(qt_num) })
    }

    /// Encode one question at the cursor: the name, its type code, and
    /// the fixed Internet class value.
    pub fn write_question(&mut self, question: DnsQuestion) -> (r: Result<(), DnsError>)
        requires
            old(self).wf(),
        ensures
            final(self).wf(),
            forall|i: int|
                0 <= i < old(self).pos && i < MAX_BUFFER_SIZE ==> final(self).buf@[i] == old(self).buf@[i],
            !labels_fit(encode_utf8(question.name@)) ==> r == Err::<(), DnsError>(
                DnsError::LabelTooLong,
            ) && *final(self) == *old(self),
            labels_fit(encode_utf8(question.name@)) && old(self).pos + enc_question(
                question@,
            ).len() <= MAX_BUFFER_SIZE ==> r == Ok::<(), DnsError>(()) && final(self).buf@
                == splice(old(self).buf@, old(self).pos as int, enc_question(question@)) && final(self).pos == old(self).pos + enc_question(question@).len(),
            labels_fit(encode_utf8(question.name@)) && old(self).pos + enc_question(
                question@,
            ).len() > MAX_BUFFER_SIZE ==> r == Err::<(), DnsError>(DnsError::BoundsError),
            r is Ok ==> labels_fit(encode_utf8(question.name@)) && old(self).pos + enc_question(
                question@,
            ).len() <= MAX_BUFFER_SIZE,
    {
        self.write_question_ref(&question)
    }

    /// Encode one question held by reference; the whole-message writer
    /// walks its section this way.
    pub(crate) fn write_question_ref(&mut self, question: &DnsQuestion) -> (r: Result<(), DnsError>)
        requires
            old(self).wf(),
        ensures
            final(self).wf(),
            forall|i: int|
                0 <= i < old(self).pos && i < MAX_BUFFER_SIZE ==> final(self).buf@[i] == old(self).buf@[i],
            !labels_fit(encode_utf8(question.name@)) ==> r == Err::<(), DnsError>(
                DnsError::LabelTooLong,
            ) && *final(self) == *old(self),
            labels_fit(encode_utf8(question.name@)) && old(self).pos + enc_question(
                question@,
            ).len() <= MAX_BUFFER_SIZE ==> r == Ok::<(), DnsError>(()) && final(self).buf@
                == splice(old(self).buf@, old(self).pos as int, enc_question(question@)) && final(self).pos == old(self).pos + enc_question(question@).len(),
            labels_fit(encode_utf8(question.name@)) && old(self).pos + enc_question(
                question@,
            ).len() > MAX_BUFFER_SIZE ==> r == Err::<(), DnsError>(DnsError::BoundsError),
            r is Ok ==> labels_fit(encode_utf8(question.name@)) && old(self).pos + enc_question(
                question@,
            ).len() <= MAX_BUFFER_SIZE,
    {
        let ghost buf0 = self.buf@;
        let ghost startpos = self.pos as int;
        let ghost bs = encode_utf8(question.name@);
        self.write_qname(question.name.as_str())?;
        proof {
            lemma_splice_concat(buf0, startpos, enc_name(bs), be16(question.qtype.spec_num()));
        }
        self.write_u16(question.qtype.to_num())?;
        proof {
            lemma_splice_concat(
                buf0,
                startpos,
                enc_name(bs) + be16(question.qtype.spec_num()),
                be16(1u16),
            );
        }
        self.write_u16(1)?;
        Ok(())
    }
}

} // verus!
