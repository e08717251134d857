use vstd::prelude::*;

use crate::buffer::BytePacketBuffer;
use crate::buffer::MAX_BUFFER_SIZE;
use crate::buffer::be16;
use crate::buffer::combine16;
use crate::buffer::lemma_splice_concat;
use crate::buffer::splice;
use crate::error::DnsError;

verus! {

/// The 4-bit result code of a DNS response, a closed set: any numeric
/// value outside it is a decode error, never silently coerced.
#[derive(Copy, Clone, Debug, PartialEq, Eq, Structural)]
pub enum ResultCode {
    Success,
    FormError,
    ServerFail,
    NonexistantDomain,
    NotImplemented,
    Refused,
}

impl Default for ResultCode {
    fn default() -> (r: Self)
        ensures
            r == ResultCode::Success,
    {
        ResultCode::Success
    }
}

impl ResultCode {
    /// The numeric value of the code on the wire.
    pub open spec fn spec_num(self) -> u8 {
        match self {
            ResultCode::Success => 0,
            ResultCode::FormError => 1,
            ResultCode::ServerFail => 2,
            ResultCode::NonexistantDomain => 3,
            ResultCode::NotImplemented => 4,
            ResultCode::Refused => 5,
        }
    }

    /// The code a numeric value stands for; meaningful on 0 through 5.
    pub open spec fn spec_of_num(num: u8) -> ResultCode {
        match num {
            1 => ResultCode::FormError,
            2 => ResultCode::ServerFail,
            3 => ResultCode::NonexistantDomain,
            4 => ResultCode::NotImplemented,
            5 => ResultCode::Refused,
            _ => ResultCode::Success,
        }
    }

    /// The code for a numeric value of the closed set.
    pub fn from_num(num: u8) -> (r: ResultCode)
        requires
            num <= 5,
        ensures
            r == ResultCode::spec_of_num(num),
            r.spec_num() == num,
    {
        match num {
            1 => ResultCode::FormError,
            2 => ResultCode::ServerFail,
            3 => ResultCode::NonexistantDomain,
            4 => ResultCode::NotImplemented,
            5 => ResultCode::Refused,
            _ => ResultCode::Success,
        }
    }

    /// The numeric value of the code on the wire.
    pub fn to_num(&self) -> (r: u8)
        ensures
            r == self.spec_num(),
    {
        match *self {
            ResultCode::Success => 0,
            ResultCode::FormError => 1,
            ResultCode::ServerFail => 2,
            ResultCode::NonexistantDomain => 3,
            ResultCode::NotImplemented => 4,
            ResultCode::Refused => 5,
        }
    }
}

/// The 12-byte fixed header of a DNS message.  The four counts state how
/// many entries each section carries; the encoder keeps them in step with
/// the sections it writes.
#[derive(Copy, Clone, Debug, PartialEq, Eq, Structural)]
pub struct DnsHeader {
    pub id: u16,
    pub recursion_desired: bool,
    pub truncated_message: bool,
    pub authoritative_answer: bool,
    pub opcode: u8,
    pub response: bool,
    pub rescode: ResultCode,
    pub checking_disabled: bool,
    pub authed_data: bool,
    pub z: bool,
    pub recursion_available: bool,
    pub questions: u16,
    pub answers: u16,
    pub authoritative_entries: u16,
    pub resource_entries: u16,
}

impl Default for DnsHeader {
    fn default() -> (r: Self)
        ensures
            r == DnsHeader::blank(),
    {
        DnsHeader {
            id: 0,
            recursion_desired: false,
            truncated_message: false,
            authoritative_answer: false,
            opcode: 0,
            response: false,
            rescode: ResultCode::Success,
            checking_disabled: false,
            authed_data: false,
            z: false,
            recursion_available: false,
            questions: 0,
            answers: 0,
            authoritative_entries: 0,
            resource_entries: 0,
        }
    }
}

/// A flag as the bit it packs to.
pub open spec fn bit(b: bool) -> u8 {
    if b {
        1
    } else {
        0
    }
}

impl DnsHeader {
    /// The all-zero header: no flags, Success, every count zero.
    pub open spec fn blank() -> DnsHeader {
        DnsHeader {
            id: 0,
            recursion_desired: false,
            truncated_message: false,
            authoritative_answer: false,
            opcode: 0,
            response: false,
            rescode: ResultCode::Success,
            checking_disabled: false,
            authed_data: false,
            z: false,
            recursion_available: false,
            questions: 0,
            answers: 0,
            authoritative_entries: 0,
            resource_entries: 0,
        }
    }

    /// The opcode is a 4-bit field.
    pub open spec fn wf(&self) -> bool {
        self.opcode < 16
    }

    /// The first flags byte: QR | opcode | AA | TC | RD.
    pub open spec fn flags_a(&self) -> u8 {
        bit(self.recursion_desired) | (bit(self.truncated_message) << 1) | (bit(
            self.authoritative_answer,
        ) << 2) | (self.opcode << 3) | (bit(self.response) << 7)
    }

    /// The second flags byte: RA | Z | AD | CD | RCODE.
    pub open spec fn flags_b(&self) -> u8 {
        self.rescode.spec_num() | (bit(self.checking_disabled) << 4) | (bit(self.authed_data) << 5)
            | (bit(self.z) << 6) | (bit(self.recursion_available) << 7)
    }

    /// The header's 12 bytes on the wire.
    pub open spec fn enc(&self) -> Seq<u8> {
        be16(self.id) + seq![self.flags_a(), self.flags_b()] + be16(self.questions) + be16(
            self.answers,
        ) + be16(self.authoritative_entries) + be16(self.resource_entries)
    }
}

/// The header whose 12 bytes start at `pos`; its result-code nibble must
/// be valid, which [`dec_header_ok`] states.
pub open spec fn dec_header_at(b: Seq<u8>, pos: int) -> DnsHeader {
    let a = b[pos + 2];
    let f = b[pos + 3];
    DnsHeader {
        id: combine16(b[pos], b[pos + 1]),
        recursion_desired: (a & 1) > 0,
        truncated_message: (a & 2) > 0,
        authoritative_answer: (a & 4) > 0,
        opcode: (a >> 3) & 0x0F,
        response: (a & 128) > 0,
        rescode: ResultCode::spec_of_num(f & 0x0F),
        checking_disabled: (f & 16) > 0,
        authed_data: (f & 32) > 0,
        z: (f & 64) > 0,
        recursion_available: (f & 128) > 0,
        questions: combine16(b[pos + 4], b[pos + 5]),
        answers: combine16(b[pos + 6], b[pos + 7]),
        authoritative_entries: combine16(b[pos + 8], b[pos + 9]),
        resource_entries: combine16(b[pos + 10], b[pos + 11]),
    }
}

/// The result-code nibble at `pos + 3` names a code of the closed set.
pub open spec fn dec_header_ok(b: Seq<u8>, pos: int) -> bool {
    (b[pos + 3] & 0x0F) <= 5
}

/// Unpacking the first flags byte gives every field back.
proof fn lemma_flags_a_unpack(r: u8, t: u8, a: u8, op: u8, q: u8)
    by (bit_vector)
    requires
        r <= 1,
        t <= 1,
        a <= 1,
        op < 16,
        q <= 1,
    ensures
        (((r | (t << 1) | (a << 2) | (op << 3) | (q << 7)) & 1) > 0) == (r == 1),
        (((r | (t << 1) | (a << 2) | (op << 3) | (q << 7)) & 2) > 0) == (t == 1),
        (((r | (t << 1) | (a << 2) | (op << 3) | (q << 7)) & 4) > 0) == (a == 1),
        ((r | (t << 1) | (a << 2) | (op << 3) | (q << 7)) >> 3) & 0x0F == op,
        (((r | (t << 1) | (a << 2) | (op << 3) | (q << 7)) & 128) > 0) == (q == 1),
{
}

/// Unpacking the second flags byte gives every field back.
proof fn lemma_flags_b_unpack(rc: u8, cd: u8, ad: u8, z: u8, ra: u8)
    by (bit_vector)
    requires
        rc <= 5,
        cd <= 1,
        ad <= 1,
        z <= 1,
        ra <= 1,
    ensures
        ((rc | (cd << 4) | (ad << 5) | (z << 6) | (ra << 7)) & 0x0F) == rc,
        (((rc | (cd << 4) | (ad << 5) | (z << 6) | (ra << 7)) & 16) > 0) == (cd == 1),
        (((rc | (cd << 4) | (ad << 5) | (z << 6) | (ra << 7)) & 32) > 0) == (ad == 1),
        (((rc | (cd << 4) | (ad << 5) | (z << 6) | (ra << 7)) & 64) > 0) == (z == 1),
        (((rc | (cd << 4) | (ad << 5) | (z << 6) | (ra << 7)) & 128) > 0) == (ra == 1),
{
}

/// A well-formed header decodes from its own wire bytes, wherever they
/// lie in the buffer.
pub proof fn lemma_header_roundtrip(h: DnsHeader, b: Seq<u8>, pos: int)
    requires
        h.wf(),
        0 <= pos,
        pos + 12 <= b.len(),
        b.subrange(pos, pos + 12) == h.enc(),
    ensures
        dec_header_ok(b, pos),
        dec_header_at(b, pos) == h,
{
    assert(h.enc() =~= seq![
        be16(h.id)[0],
        be16(h.id)[1],
        h.flags_a(),
        h.flags_b(),
        be16(h.questions)[0],
        be16(h.questions)[1],
        be16(h.answers)[0],
        be16(h.answers)[1],
        be16(h.authoritative_entries)[0],
        be16(h.authoritative_entries)[1],
        be16(h.resource_entries)[0],
        be16(h.resource_entries)[1],
    ]);
    assert forall|k: int| 0 <= k < 12 implies b[pos + k] == h.enc()[k] by {
        assert(b.subrange(pos, pos + 12)[k] == b[pos + k]);
    }
    crate::buffer::lemma_combine16_be16(h.id);
    crate::buffer::lemma_combine16_be16(h.questions);
    crate::buffer::lemma_combine16_be16(h.answers);
    crate::buffer::lemma_combine16_be16(h.authoritative_entries);
    crate::buffer::lemma_combine16_be16(h.resource_entries);
    lemma_flags_a_unpack(
        bit(h.recursion_desired),
        bit(h.truncated_message),
        bit(h.authoritative_answer),
        h.opcode,
        bit(h.response),
    );
    lemma_flags_b_unpack(
        h.rescode.spec_num(),
        bit(h.checking_disabled),
        bit(h.authed_data),
        bit(h.z),
        bit(h.recursion_available),
    );
    assert(dec_header_at(b, pos) == h);
}

impl BytePacketBuffer {
    /// Decode the 12-byte header at the cursor.  The read is whole: on
    /// either failure—the header does not fit, or the result-code nibble
    /// is outside the closed set—nothing moves.
    pub fn read_header(&mut self) -> (r: Result<DnsHeader, DnsError>)
        requires
            old(self).wf(),
        ensures
            final(self).wf(),
            final(self).buf == old(self).buf,
            old(self).pos + 12 > MAX_BUFFER_SIZE ==> r == Err::<DnsHeader, DnsError>(
                DnsError::BoundsError,
            ) && final(self).pos == old(self).pos,
            old(self).pos + 12 <= MAX_BUFFER_SIZE && !dec_header_ok(
                old(self).buf@,
                old(self).pos as int,
            ) ==> r == Err::<DnsHeader, DnsError>(DnsError::MalformedResultCode) && final(self).pos
                == old(self).pos,
            old(self).pos + 12 <= MAX_BUFFER_SIZE && dec_header_ok(
                old(self).buf@,
                old(self).pos as int,
            ) ==> r == Ok::<DnsHeader, DnsError>(dec_header_at(old(self).buf@, old(self).pos as int))
                && final(self).pos == old(self).pos + 12,
    {
        if self.pos > MAX_BUFFER_SIZE - 12 {
            return Err(DnsError::BoundsError);
        }
        let p = self.pos;
        let a = self.buf[p + 2];
        let f = self.buf[p + 3];
        let rc_num = f & 0x0F;
        proof {
            assert((f & 0x0F) <= 5 || (f & 0x0F) > 5) by (bit_vector);
        }
        if rc_num > 5 {
            return Err(DnsError::MalformedResultCode);
        }
        let header = DnsHeader {
            id: combine_u16(self.buf[p], self.buf[p + 1]),
            recursion_desired: (a & 1) > 0,
            truncated_message: (a & 2) > 0,
            authoritative_answer: (a & 4) > 0,
            opcode: (a >> 3) & 0x0F,
            response: (a & 128) > 0,
            rescode: ResultCode::from_num(rc_num),
            checking_disabled: (f & 16) > 0,
            authed_data: (f & 32) > 0,
            z: (f & 64) > 0,
            recursion_available: (f & 128) > 0,
            questions: combine_u16(self.buf[p + 4], self.buf[p + 5]),
            answers: combine_u16(self.buf[p + 6], self.buf[p + 7]),
            authoritative_entries: combine_u16(self.buf[p + 8], self.buf[p + 9]),
            resource_entries: combine_u16(self.buf[p + 10], self.buf[p + 11]),
        };
        self.pos = p + 12;
        Ok(header)
    }

    /// Encode the 12-byte header at the cursor.  The write is whole: when
    /// the header does not fit, nothing changes.
    pub fn write_header(&mut self, header: DnsHeader) -> (r: Result<(), DnsError>)
        requires
            old(self).wf(),
            header.wf(),
        ensures
            final(self).wf(),
            old(self).pos + 12 <= MAX_BUFFER_SIZE ==> r == Ok::<(), DnsError>(()) && final(self).buf@ == splice(old(self).buf@, old(self).pos as int, header.enc()) && final(self).pos
                == old(self).pos + 12,
            old(self).pos + 12 > MAX_BUFFER_SIZE ==> r == Err::<(), DnsError>(
                DnsError::BoundsError,
            ) && *final(self) == *old(self),
    {
        if self.pos > MAX_BUFFER_SIZE - 12 {
            return Err(DnsError::BoundsError);
        }
        let ghost buf0 = self.buf@;
        let ghost startpos = self.pos as int;
        let rd: u8 = if header.recursion_desired {
            1
        } else {
            0
        };
        let tc: u8 = if header.truncated_message {
            1
        } else {
            0
        };
        let aa: u8 = if header.authoritative_answer {
            1
        } else {
            0
        };
        let qr: u8 = if header.response {
            1
        } else {
            0
        };
        let cd: u8 = if header.checking_disabled {
            1
        } else {
            0
        };
        let ad: u8 = if header.authed_data {
            1
        } else {
            0
        };
        let zf: u8 = if header.z {
            1
        } else {
            0
        };
        let ra: u8 = if header.recursion_available {
            1
        } else {
            0
        };
        let fa: u8 = rd | (tc << 1) | (aa << 2) | (header.opcode << 3) | (qr << 7);
        let fb: u8 = header.rescode.to_num() | (cd << 4) | (ad << 5) | (zf << 6) | (ra << 7);
        self.write_u16(header.id)?;
        proof {
            lemma_splice_concat(buf0, startpos, be16(header.id), seq![fa]);
        }
        self.write(fa)?;
        proof {
            lemma_splice_concat(buf0, startpos, be16(header.id) + seq![fa], seq![fb]);
        }
        self.write(fb)?;
        proof {
            lemma_splice_concat(
                buf0,
                startpos,
                be16(header.id) + seq![fa] + seq![fb],
                be16(header.questions),
            );
        }
        self.write_u16(header.questions)?;
        proof {
            lemma_splice_concat(
                buf0,
                startpos,
                be16(header.id) + seq![fa] + seq![fb] + be16(header.questions),
                be16(header.answers),
            );
        }
        self.write_u16(header.answers)?;
        proof {
            lemma_splice_concat(
                buf0,
                startpos,
                be16(header.id) + seq![fa] + seq![fb] + be16(header.questions) + be16(
                    header.answers,
                ),
                be16(header.authoritative_entries),
            );
        }
        self.write_u16(header.authoritative_entries)?;
        proof {
            lemma_splice_concat(
                buf0,
                startpos,
                be16(header.id) + seq![fa] + seq![fb] + be16(header.questions) + be16(
                    header.answers,
                ) + be16(header.authoritative_entries),
                be16(header.resource_entries),
            );
        }
        self.write_u16(header.resource_entries)?;
        proof {
            assert(be16(header.id) + seq![fa] + seq![fb] + be16(header.questions) + be16(
                header.answers,
            ) + be16(header.authoritative_entries) + be16(header.resource_entries) =~= header.enc());
        }
        Ok(())
    }
}

/// Compose one big-endian 16-bit value from two bytes.
fn combine_u16(hi: u8, lo: u8) -> (r: u16)
    ensures
        r == combine16(hi, lo),
{
    let r = ((hi as u16) << 8) | (lo as u16);
    proof {
        assert(((hi as u16) << 8) | (lo as u16) == combine16(hi, lo)) by (bit_vector);
    }
    r
}

} // verus!
