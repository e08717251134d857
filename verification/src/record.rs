use vstd::prelude::*;

use vstd::utf8::encode_utf8;

use crate::buffer::BytePacketBuffer;
use crate::buffer::MAX_BUFFER_SIZE;
use crate::buffer::be16;
use crate::buffer::be32;
use crate::buffer::combine16;
use crate::buffer::combine32;
use crate::buffer::lemma_splice_concat;
use crate::buffer::lemma_splice_patch;
use crate::buffer::splice;
use crate::error::DnsError;
use crate::name::NameDec;
use crate::name::dec_name;
use crate::name::enc_name;
use crate::name::labels_fit;
use crate::name::name_view;
use crate::question::QueryType;

verus! {

/// One resource record, keyed by its type.  Types outside the closed set
/// land in `Unknown`, which keeps the raw type code and the declared
/// payload length; its payload is skipped on decode and it cannot be
/// encoded.
#[derive(Debug, Clone, PartialEq, Eq, Hash, PartialOrd, Ord)]
pub enum DnsRecord {
    Unknown { domain: String, qtype: u16, data_len: u16, ttl: u32 },
    A { domain: String, addr: u32, ttl: u32 },
    NS { domain: String, host: String, ttl: u32 },
    CNAME { domain: String, host: String, ttl: u32 },
    MX { domain: String, priority: u16, host: String, ttl: u32 },
    AAAA { domain: String, addr: [u16; 8], ttl: u32 },
}

/// The mathematical shape of a record.
pub enum RecordV {
    Unknown { domain: Seq<char>, qtype: u16, data_len: u16, ttl: u32 },
    A { domain: Seq<char>, addr: u32, ttl: u32 },
    NS { domain: Seq<char>, host: Seq<char>, ttl: u32 },
    CNAME { domain: Seq<char>, host: Seq<char>, ttl: u32 },
    MX { domain: Seq<char>, priority: u16, host: Seq<char>, ttl: u32 },
    AAAA { domain: Seq<char>, addr: Seq<u16>, ttl: u32 },
}

impl View for DnsRecord {
    type V = RecordV;

    open spec fn view(&self) -> RecordV {
        match self {
            DnsRecord::Unknown { domain, qtype, data_len, ttl } => RecordV::Unknown {
                domain: domain@,
                qtype: *qtype,
                data_len: *data_len,
                ttl: *ttl,
            },
            DnsRecord::A { domain, addr, ttl } => RecordV::A {
                domain: domain@,
                addr: *addr,
                ttl: *ttl,
            },
            DnsRecord::NS { domain, host, ttl } => RecordV::NS {
                domain: domain@,
                host: host@,
                ttl: *ttl,
            },
            DnsRecord::CNAME { domain, host, ttl } => RecordV::CNAME {
                domain: domain@,
                host: host@,
                ttl: *ttl,
            },
            DnsRecord::MX { domain, priority, host, ttl } => RecordV::MX {
                domain: domain@,
                priority: *priority,
                host: host@,
                ttl: *ttl,
            },
            DnsRecord::AAAA { domain, addr, ttl } => RecordV::AAAA {
                domain: domain@,
                addr: addr@,
                ttl: *ttl,
            },
        }
    }
}

/// How a record decode ends.
pub enum RecordDec {
    Done { rec: RecordV, end: int },
    Fail(DnsError),
}

/// The record starting at `pos`: a name, then type, class (dropped), TTL
/// and declared payload length, then the type-specific payload.  A record
/// of an unrecognized type is not parsed: the cursor skips exactly the
/// declared length and the record keeps the raw code and that length.
pub open spec fn dec_record(buf: Seq<u8>, pos: int) -> RecordDec {
    match dec_name(buf, pos) {
        NameDec::Fail(k) => RecordDec::Fail(k),
        NameDec::Done { labels, end } => if end + 10 <= buf.len() {
            let domain = name_view(labels);
            let qnum = combine16(buf[end], buf[end + 1]);
            let ttl = combine32(buf[end + 4], buf[end + 5], buf[end + 6], buf[end + 7]);
            let data_len = combine16(buf[end + 8], buf[end + 9]);
            let p = end + 10;
            match QueryType::spec_of_num(qnum) {
                QueryType::A => if p + 4 <= buf.len() {
                    RecordDec::Done {
                        rec: RecordV::A {
                            domain,
                            addr: combine32(buf[p], buf[p + 1], buf[p + 2], buf[p + 3]),
                            ttl,
                        },
                        end: p + 4,
                    }
                } else {
                    RecordDec::Fail(DnsError::BoundsError)
                },
                QueryType::AAAA => if p + 16 <= buf.len() {
                    RecordDec::Done {
                        rec: RecordV::AAAA {
                            domain,
                            addr: Seq::new(8, |i: int| combine16(buf[p + 2 * i], buf[p + 2 * i + 1])),
                            ttl,
                        },
                        end: p + 16,
                    }
                } else {
                    RecordDec::Fail(DnsError::BoundsError)
                },
                QueryType::NS => match dec_name(buf, p) {
                    NameDec::Done { labels: hl, end: e2 } => RecordDec::Done {
                        rec: RecordV::NS { domain, host: name_view(hl), ttl },
                        end: e2,
                    },
                    NameDec::Fail(k) => RecordDec::Fail(k),
                },
                QueryType::CNAME => match dec_name(buf, p) {
                    NameDec::Done { labels: hl, end: e2 } => RecordDec::Done {
                        rec: RecordV::CNAME { domain, host: name_view(hl), ttl },
                        end: e2,
                    },
                    NameDec::Fail(k) => RecordDec::Fail(k),
                },
                QueryType::MX => if p + 2 <= buf.len() {
                    match dec_name(buf, p + 2) {
                        NameDec::Done { labels: hl, end: e2 } => RecordDec::Done {
                            rec: RecordV::MX {
                                domain,
                                priority: combine16(buf[p], buf[p + 1]),
                                host: name_view(hl),
                                ttl,
                            },
                            end: e2,
                        },
                        NameDec::Fail(k) => RecordDec::Fail(k),
                    }
                } else {
                    RecordDec::Fail(DnsError::BoundsError)
                },
                QueryType::Unknown(x) => RecordDec::Done {
                    rec: RecordV::Unknown { domain, qtype: x, data_len, ttl },
                    end: p + data_len,
                },
            }
        } else {
            RecordDec::Fail(DnsError::BoundsError)
        },
    }
}

/// Every name of the record fits the per-label wire limit.
pub open spec fn rec_labels_fit(r: RecordV) -> bool {
    match r {
        RecordV::Unknown { .. } => true,
        RecordV::A { domain, .. } => labels_fit(encode_utf8(domain)),
        RecordV::AAAA { domain, .. } => labels_fit(encode_utf8(domain)),
        RecordV::NS { domain, host, .. } => labels_fit(encode_utf8(domain)) && labels_fit(
            encode_utf8(host),
        ),
        RecordV::CNAME { domain, host, .. } => labels_fit(encode_utf8(domain)) && labels_fit(
            encode_utf8(host),
        ),
        RecordV::MX { domain, host, .. } => labels_fit(encode_utf8(domain)) && labels_fit(
            encode_utf8(host),
        ),
    }
}

/// A record's bytes on the wire.  Variable-length payloads (a host name,
/// with a leading priority for MX) carry their own byte count in the
/// length field; an `Unknown` record encodes to nothing.
pub open spec fn enc_record(r: RecordV) -> Seq<u8> {
    match r {
        RecordV::Unknown { .. } => Seq::empty(),
        RecordV::A { domain, addr, ttl } => enc_name(encode_utf8(domain)) + be16(1u16) + be16(1u16)
            + be32(ttl) + be16(4u16) + be32(addr),
        RecordV::NS { domain, host, ttl } => enc_name(encode_utf8(domain)) + be16(2u16) + be16(1u16)
            + be32(ttl) + be16(enc_name(encode_utf8(host)).len() as u16) + enc_name(
            encode_utf8(host),
        ),
        RecordV::CNAME { domain, host, ttl } => enc_name(encode_utf8(domain)) + be16(5u16) + be16(
            1u16,
        ) + be32(ttl) + be16(enc_name(encode_utf8(host)).len() as u16) + enc_name(
            encode_utf8(host),
        ),
        RecordV::MX { domain, priority, host, ttl } => enc_name(encode_utf8(domain)) + be16(15u16)
            + be16(1u16) + be32(ttl) + be16((enc_name(encode_utf8(host)).len() + 2) as u16) + be16(
            priority,
        ) + enc_name(encode_utf8(host)),
        RecordV::AAAA { domain, addr, ttl } => enc_name(encode_utf8(domain)) + be16(28u16) + be16(
            1u16,
        ) + be32(ttl) + be16(16u16) + be16(addr[0]) + be16(addr[1]) + be16(addr[2]) + be16(addr[3])
            + be16(addr[4]) + be16(addr[5]) + be16(addr[6]) + be16(addr[7]),
    }
}

impl BytePacketBuffer {
    /// Decode one record at the cursor; see [`dec_record`] for the exact
    /// shape.  A record of an unrecognized type advances the cursor by
    /// exactly its declared payload length, whatever the payload holds.
    pub fn read_record(&mut self) -> (r: Result<DnsRecord, DnsError>)
        requires
            old(self).wf(),
        ensures
            final(self).wf(),
            final(self).buf == old(self).buf,
            match dec_record(old(self).buf@, old(self).pos as int) {
                RecordDec::Done { rec, end } => r is Ok && r.unwrap()@ == rec && final(self).pos
                    == end,
                RecordDec::Fail(k) => r == Err::<DnsRecord, DnsError>(k),
            },
    {
        let domain = self.read_qname()?;
        let qt_num = self.read_u16()?;
        let qtype = QueryType::from_num(qt_num);
        let _class: u16 = self.read_u16()?;
        let ttl = self.read_u32()?;
        let data_len = self.read_u16()?;
        match qtype {
            QueryType::A => {
                let raw = self.read_u32()?;
                Ok(DnsRecord::A { domain, ttl, addr: raw })
            },
            QueryType::AAAA => {
                let g0 = self.read_u16()?;
                let g1 = self.read_u16()?;
                let g2 = self.read_u16()?;
                let g3 = self.read_u16()?;
                let g4 = self.read_u16()?;
                let g5 = self.read_u16()?;
                let g6 = self.read_u16()?;
                let g7 = self.read_u16()?;
                let addr: [u16; 8] = [g0, g1, g2, g3, g4, g5, g6, g7];
                proof {
                    let p = old(self).pos as int;
                    assert(addr@ =~= (match dec_record(old(self).buf@, p) {
                        RecordDec::Done { rec: RecordV::AAAA { addr: a, .. }, .. } => a,
                        _ => addr@,
                    }));
                }
                Ok(DnsRecord::AAAA { domain, ttl, addr })
            },
            QueryType::NS => {
                let host = self.read_qname()?;
                Ok(DnsRecord::NS { domain, ttl, host })
            },
            QueryType::CNAME => {
                let host = self.read_qname()?;
                Ok(DnsRecord::CNAME { domain, ttl, host })
            },
            QueryType::MX => {
                let priority = self.read_u16()?;
                let host = self.read_qname()?;
                Ok(DnsRecord::MX { domain, priority, host, ttl })
            },
            QueryType::Unknown(x) => {
                self.pos = self.pos + data_len as usize;
                Ok(DnsRecord::Unknown { domain, qtype: x, data_len, ttl })
            },
        }
    }

    /// Encode one record at the cursor and return how many bytes it took.
    ///
    /// Writing an `Unknown` record is a deliberate no-op: the model keeps
    /// such records only to carry them through, and reports zero bytes
    /// written.  For NS, CNAME and MX the length field is written as a
    /// placeholder, the payload follows, and the real byte count is
    /// patched in afterwards.
    pub fn write_record(&mut self, record: DnsRecord) -> (r: Result<usize, DnsError>)
        requires
            old(self).wf(),
        ensures
            final(self).wf(),
            forall|i: int|
                0 <= i < old(self).pos && i < MAX_BUFFER_SIZE ==> final(self).buf@[i] == old(self).buf@[i],
            record@ is Unknown ==> r == Ok::<usize, DnsError>(0) && *final(self) == *old(self),
            !(record@ is Unknown) && rec_labels_fit(record@) && old(self).pos + enc_record(
                record@,
            ).len() <= MAX_BUFFER_SIZE ==> r == Ok::<usize, DnsError>(
                enc_record(record@).len() as usize,
            ) && final(self).buf@ == splice(old(self).buf@, old(self).pos as int, enc_record(record@))
                && final(self).pos == old(self).pos + enc_record(record@).len(),
            r is Err ==> r == Err::<usize, DnsError>(DnsError::LabelTooLong) || r == Err::<
                usize,
                DnsError,
            >(DnsError::BoundsError),
            rec_labels_fit(record@) ==> (r is Err ==> r == Err::<usize, DnsError>(
                DnsError::BoundsError,
            )),
            old(self).pos + enc_record(record@).len() <= MAX_BUFFER_SIZE ==> (r is Err ==> r
                == Err::<usize, DnsError>(DnsError::LabelTooLong)),
            r is Ok ==> record@ is Unknown || (rec_labels_fit(record@) && old(self).pos
                + enc_record(record@).len() <= MAX_BUFFER_SIZE),
    {
        self.write_record_ref(&record)
    }

    /// Encode one record held by reference; the whole-message writer
    /// walks its sections this way.
    pub(crate) fn write_record_ref(&mut self, record: &DnsRecord) -> (r: Result<usize, DnsError>)
        requires
            old(self).wf(),
        ensures
            final(self).wf(),
            forall|i: int|
                0 <= i < old(self).pos && i < MAX_BUFFER_SIZE ==> final(self).buf@[i] == old(self).buf@[i],
            record@ is Unknown ==> r == Ok::<usize, DnsError>(0) && *final(self) == *old(self),
            !(record@ is Unknown) && rec_labels_fit(record@) && old(self).pos + enc_record(
                record@,
            ).len() <= MAX_BUFFER_SIZE ==> r == Ok::<usize, DnsError>(
                enc_record(record@).len() as usize,
            ) && final(self).buf@ == splice(old(self).buf@, old(self).pos as int, enc_record(record@))
                && final(self).pos == old(self).pos + enc_record(record@).len(),
            r is Err ==> r == Err::<usize, DnsError>(DnsError::LabelTooLong) || r == Err::<
                usize,
                DnsError,
            >(DnsError::BoundsError),
            rec_labels_fit(record@) ==> (r is Err ==> r == Err::<usize, DnsError>(
                DnsError::BoundsError,
            )),
            old(self).pos + enc_record(record@).len() <= MAX_BUFFER_SIZE ==> (r is Err ==> r
                == Err::<usize, DnsError>(DnsError::LabelTooLong)),
            r is Ok ==> record@ is Unknown || (rec_labels_fit(record@) && old(self).pos
                + enc_record(record@).len() <= MAX_BUFFER_SIZE),
    {
        match record {
            DnsRecord::A { domain, addr, ttl } => {
                let size = self.write_a_record(domain.as_str(), *addr, *ttl)?;
                Ok(size)
            },
            DnsRecord::NS { domain, host, ttl } => {
                let size = self.write_host_record(domain.as_str(), 2, host.as_str(), *ttl)?;
                Ok(size)
            },
            DnsRecord::CNAME { domain, host, ttl } => {
                let size = self.write_host_record(domain.as_str(), 5, host.as_str(), *ttl)?;
                Ok(size)
            },
            DnsRecord::MX { domain, priority, host, ttl } => {
                let size = self.write_mx_record(domain.as_str(), *priority, host.as_str(), *ttl)?;
                Ok(size)
            },
            DnsRecord::AAAA { domain, addr, ttl } => {
                let size = self.write_aaaa_record(domain.as_str(), addr, *ttl)?;
                Ok(size)
            },
            DnsRecord::Unknown { .. } => {
                // deliberately not writable: unrecognized records are kept
                // only to be carried through, never re-encoded
                Ok(0)
            },
        }
    }

    /// Encode an A record: a fixed four-byte address payload.
    fn write_a_record(&mut self, domain: &str, addr: u32, ttl: u32) -> (r: Result<usize, DnsError>)
        requires
            old(self).wf(),
        ensures
            final(self).wf(),
            forall|i: int|
                0 <= i < old(self).pos && i < MAX_BUFFER_SIZE ==> final(self).buf@[i] == old(self).buf@[i],
            ({
                let data = enc_name(encode_utf8(domain@)) + be16(1u16) + be16(1u16) + be32(ttl)
                    + be16(4u16) + be32(addr);
                &&& (labels_fit(encode_utf8(domain@)) && old(self).pos + data.len()
                    <= MAX_BUFFER_SIZE ==> r == Ok::<usize, DnsError>(data.len() as usize) && final(self).buf@ == splice(old(self).buf@, old(self).pos as int, data) && final(self).pos
                    == old(self).pos + data.len())
                &&& (r is Err ==> r == Err::<usize, DnsError>(DnsError::LabelTooLong) || r == Err::<
                    usize,
                    DnsError,
                >(DnsError::BoundsError))
                &&& (labels_fit(encode_utf8(domain@)) ==> (r is Err ==> r == Err::<usize, DnsError>(
                    DnsError::BoundsError,
                )))
                &&& (old(self).pos + data.len() <= MAX_BUFFER_SIZE ==> (r is Err ==> r == Err::<
                    usize,
                    DnsError,
                >(DnsError::LabelTooLong)))
                &&& (r is Ok ==> labels_fit(encode_utf8(domain@)) && old(self).pos + data.len()
                    <= MAX_BUFFER_SIZE)
            }),
    {
        let start_pos = self.pos;
        let ghost buf0 = self.buf@;
        let ghost sp = start_pos as int;
        let ghost nd = enc_name(encode_utf8(domain@));
        self.write_qname(domain)?;
        proof {
            lemma_splice_concat(buf0, sp, nd, be16(1u16));
        }
        self.write_u16(1)?;
        proof {
            lemma_splice_concat(buf0, sp, nd + be16(1u16), be16(1u16));
        }
        self.write_u16(1)?;
        proof {
            lemma_splice_concat(buf0, sp, nd + be16(1u16) + be16(1u16), be32(ttl));
        }
        self.write_u32(ttl)?;
        proof {
            lemma_splice_concat(buf0, sp, nd + be16(1u16) + be16(1u16) + be32(ttl), be16(4u16));
        }
        self.write_u16(4)?;
        proof {
            lemma_splice_concat(
                buf0,
                sp,
                nd + be16(1u16) + be16(1u16) + be32(ttl) + be16(4u16),
                be32(addr),
            );
        }
        self.write_u32(addr)?;
        Ok(self.pos - start_pos)
    }

    /// Encode an MX record: a priority, then a host name, with the length
    /// field patched in once the name's size is known.
    fn write_mx_record(&mut self, domain: &str, priority: u16, host: &str, ttl: u32) -> (r: Result<
        usize,
        DnsError,
    >)
        requires
            old(self).wf(),
        ensures
            final(self).wf(),
            forall|i: int|
                0 <= i < old(self).pos && i < MAX_BUFFER_SIZE ==> final(self).buf@[i] == old(self).buf@[i],
            ({
                let nd = enc_name(encode_utf8(domain@));
                let nh = enc_name(encode_utf8(host@));
                let data = nd + be16(15u16) + be16(1u16) + be32(ttl) + be16((nh.len() + 2) as u16)
                    + be16(priority) + nh;
                &&& (labels_fit(encode_utf8(domain@)) && labels_fit(encode_utf8(host@)) && old(self).pos + data.len() <= MAX_BUFFER_SIZE ==> r == Ok::<usize, DnsError>(
                    data.len() as usize,
                ) && final(self).buf@ == splice(old(self).buf@, old(self).pos as int, data) && final(self).pos == old(self).pos + data.len())
                &&& (r is Err ==> r == Err::<usize, DnsError>(DnsError::LabelTooLong) || r == Err::<
                    usize,
                    DnsError,
                >(DnsError::BoundsError))
                &&& (labels_fit(encode_utf8(domain@)) && labels_fit(encode_utf8(host@)) ==> (r
                    is Err ==> r == Err::<usize, DnsError>(DnsError::BoundsError)))
                &&& (old(self).pos + data.len() <= MAX_BUFFER_SIZE ==> (r is Err ==> r == Err::<
                    usize,
                    DnsError,
                >(DnsError::LabelTooLong)))
                &&& (r is Ok ==> labels_fit(encode_utf8(domain@)) && labels_fit(encode_utf8(host@))
                    && old(self).pos + data.len() <= MAX_BUFFER_SIZE)
            }),
    {
        let start_pos = self.pos;
        let ghost buf0 = self.buf@;
        let ghost sp = start_pos as int;
        let ghost nd = enc_name(encode_utf8(domain@));
        let ghost nh = enc_name(encode_utf8(host@));
        self.write_qname(domain)?;
        proof {
            lemma_splice_concat(buf0, sp, nd, be16(15u16));
        }
        self.write_u16(15)?;
        proof {
            lemma_splice_concat(buf0, sp, nd + be16(15u16), be16(1u16));
        }
        self.write_u16(1)?;
        proof {
            lemma_splice_concat(buf0, sp, nd + be16(15u16) + be16(1u16), be32(ttl));
        }
        self.write_u32(ttl)?;
        let lpos = self.pos;
        proof {
            lemma_splice_concat(buf0, sp, nd + be16(15u16) + be16(1u16) + be32(ttl), be16(0u16));
        }
        self.write_u16(0)?;
        proof {
            lemma_splice_concat(
                buf0,
                sp,
                nd + be16(15u16) + be16(1u16) + be32(ttl) + be16(0u16),
                be16(priority),
            );
        }
        self.write_u16(priority)?;
        proof {
            lemma_splice_concat(
                buf0,
                sp,
                nd + be16(15u16) + be16(1u16) + be32(ttl) + be16(0u16) + be16(priority),
                nh,
            );
        }
        self.write_qname(host)?;
        let size = self.pos - (lpos + 2);
        self.set_u16(lpos, size as u16)?;
        proof {
            let data0 = nd + be16(15u16) + be16(1u16) + be32(ttl) + be16(0u16) + be16(priority)
                + nh;
            lemma_splice_patch(buf0, sp, data0, nd.len() as int + 8, be16((nh.len() + 2) as u16));
            assert(splice(data0, nd.len() as int + 8, be16((nh.len() + 2) as u16)) =~= nd + be16(
                15u16,
            ) + be16(1u16) + be32(ttl) + be16((nh.len() + 2) as u16) + be16(priority) + nh);
        }
        Ok(self.pos - start_pos)
    }

    /// Encode an AAAA record: a fixed sixteen-byte payload of eight
    /// big-endian groups.
    fn write_aaaa_record(&mut self, domain: &str, addr: &[u16; 8], ttl: u32) -> (r: Result<
        usize,
        DnsError,
    >)
        requires
            old(self).wf(),
        ensures
            final(self).wf(),
            forall|i: int|
                0 <= i < old(self).pos && i < MAX_BUFFER_SIZE ==> final(self).buf@[i] == old(self).buf@[i],
            ({
                let data = enc_name(encode_utf8(domain@)) + be16(28u16) + be16(1u16) + be32(ttl)
                    + be16(16u16) + be16(addr@[0]) + be16(addr@[1]) + be16(addr@[2]) + be16(addr@[3])
                    + be16(addr@[4]) + be16(addr@[5]) + be16(addr@[6]) + be16(addr@[7]);
                &&& (labels_fit(encode_utf8(domain@)) && old(self).pos + data.len()
                    <= MAX_BUFFER_SIZE ==> r == Ok::<usize, DnsError>(data.len() as usize) && final(self).buf@ == splice(old(self).buf@, old(self).pos as int, data) && final(self).pos
                    == old(self).pos + data.len())
                &&& (r is Err ==> r == Err::<usize, DnsError>(DnsError::LabelTooLong) || r == Err::<
                    usize,
                    DnsError,
                >(DnsError::BoundsError))
                &&& (labels_fit(encode_utf8(domain@)) ==> (r is Err ==> r == Err::<usize, DnsError>(
                    DnsError::BoundsError,
                )))
                &&& (old(self).pos + data.len() <= MAX_BUFFER_SIZE ==> (r is Err ==> r == Err::<
                    usize,
                    DnsError,
                >(DnsError::LabelTooLong)))
                &&& (r is Ok ==> labels_fit(encode_utf8(domain@)) && old(self).pos + data.len()
                    <= MAX_BUFFER_SIZE)
            }),
    {
        let start_pos = self.pos;
        let ghost buf0 = self.buf@;
        let ghost sp = start_pos as int;
        let ghost nd = enc_name(encode_utf8(domain@));
        self.write_qname(domain)?;
        proof {
            lemma_splice_concat(buf0, sp, nd, be16(28u16));
        }
        self.write_u16(28)?;
        proof {
            lemma_splice_concat(buf0, sp, nd + be16(28u16), be16(1u16));
        }
        self.write_u16(1)?;
        proof {
            lemma_splice_concat(buf0, sp, nd + be16(28u16) + be16(1u16), be32(ttl));
        }
        self.write_u32(ttl)?;
        proof {
            lemma_splice_concat(buf0, sp, nd + be16(28u16) + be16(1u16) + be32(ttl), be16(16u16));
        }
        self.write_u16(16)?;
        let ghost fixed = nd + be16(28u16) + be16(1u16) + be32(ttl) + be16(16u16);
        let mut g: usize = 0;
        while g < 8
            invariant
                g <= 8,
                self.wf(),
                self.pos <= MAX_BUFFER_SIZE,
                sp == old(self).pos,
                buf0 == old(self).buf@,
                buf0.len() == MAX_BUFFER_SIZE,
                fixed == enc_name(encode_utf8(domain@)) + be16(28u16) + be16(1u16) + be32(ttl)
                    + be16(16u16),
                self.pos == sp + fixed.len() + 2 * g,
                self.buf@ == splice(buf0, sp, fixed + enc_groups(addr@, g as int)),
            decreases 8 - g,
        {
            proof {
                lemma_enc_groups_len(addr@, g as int);
                lemma_splice_concat(
                    buf0,
                    sp,
                    fixed + enc_groups(addr@, g as int),
                    be16(addr@[g as int]),
                );
                assert((fixed + enc_groups(addr@, g as int)) + be16(addr@[g as int]) =~= fixed
                    + enc_groups(addr@, g as int + 1));
            }
            self.write_u16(addr[g])?;
            g = g + 1;
        }
        proof {
            lemma_enc_groups_8(addr@);
            assert(fixed + enc_groups(addr@, 8) =~= fixed + (be16(addr@[0]) + be16(addr@[1]) + be16(
                addr@[2],
            ) + be16(addr@[3]) + be16(addr@[4]) + be16(addr@[5]) + be16(addr@[6]) + be16(addr@[7])));
        }
        Ok(self.pos - start_pos)
    }

    /// Encode a record whose payload is one host name (NS and CNAME): the
    /// placeholder length is patched once the name's size is known.
    fn write_host_record(&mut self, domain: &str, qt_num: u16, host: &str, ttl: u32) -> (r: Result<
        usize,
        DnsError,
    >)
        requires
            old(self).wf(),
        ensures
            final(self).wf(),
            forall|i: int|
                0 <= i < old(self).pos && i < MAX_BUFFER_SIZE ==> final(self).buf@[i] == old(self).buf@[i],
            ({
                let nd = enc_name(encode_utf8(domain@));
                let nh = enc_name(encode_utf8(host@));
                let data = nd + be16(qt_num) + be16(1u16) + be32(ttl) + be16(nh.len() as u16) + nh;
                &&& (labels_fit(encode_utf8(domain@)) && labels_fit(encode_utf8(host@)) && old(self).pos + data.len() <= MAX_BUFFER_SIZE ==> r == Ok::<usize, DnsError>(
                    data.len() as usize,
                ) && final(self).buf@ == splice(old(self).buf@, old(self).pos as int, data) && final(self).pos == old(self).pos + data.len())
                &&& (r is Err ==> r == Err::<usize, DnsError>(DnsError::LabelTooLong) || r == Err::<
                    usize,
                    DnsError,
                >(DnsError::BoundsError))
                &&& (labels_fit(encode_utf8(domain@)) && labels_fit(encode_utf8(host@)) ==> (r
                    is Err ==> r == Err::<usize, DnsError>(DnsError::BoundsError)))
                &&& (old(self).pos + data.len() <= MAX_BUFFER_SIZE ==> (r is Err ==> r == Err::<
                    usize,
                    DnsError,
                >(DnsError::LabelTooLong)))
                &&& (r is Ok ==> labels_fit(encode_utf8(domain@)) && labels_fit(encode_utf8(host@))
                    && old(self).pos + data.len() <= MAX_BUFFER_SIZE)
            }),
    {
        let start_pos = self.pos;
        let ghost buf0 = self.buf@;
        let ghost sp = start_pos as int;
        let ghost nd = enc_name(encode_utf8(domain@));
        let ghost nh = enc_name(encode_utf8(host@));
        self.write_qname(domain)?;
        proof {
            lemma_splice_concat(buf0, sp, nd, be16(qt_num));
        }
        self.write_u16(qt_num)?;
        proof {
            lemma_splice_concat(buf0, sp, nd + be16(qt_num), be16(1u16));
        }
        self.write_u16(1)?;
        proof {
            lemma_splice_concat(buf0, sp, nd + be16(qt_num) + be16(1u16), be32(ttl));
        }
        self.write_u32(ttl)?;
        let lpos = self.pos;
        proof {
            lemma_splice_concat(buf0, sp, nd + be16(qt_num) + be16(1u16) + be32(ttl), be16(0u16));
        }
        self.write_u16(0)?;
        proof {
            lemma_splice_concat(
                buf0,
                sp,
                nd + be16(qt_num) + be16(1u16) + be32(ttl) + be16(0u16),
                nh,
            );
        }
        self.write_qname(host)?;
        let size = self.pos - (lpos + 2);
        self.set_u16(lpos, size as u16)?;
        proof {
            let data0 = nd + be16(qt_num) + be16(1u16) + be32(ttl) + be16(0u16) + nh;
            lemma_splice_patch(buf0, sp, data0, nd.len() as int + 8, be16(nh.len() as u16));
            assert(splice(data0, nd.len() as int + 8, be16(nh.len() as u16)) =~= nd + be16(qt_num) + be16(
                1u16,
            ) + be32(ttl) + be16(nh.len() as u16) + nh);
        }
        Ok(self.pos - start_pos)
    }
}

/// The first `n` address groups of an IPv6 payload, big-endian.
pub open spec fn enc_groups(addr: Seq<u16>, n: int) -> Seq<u8>
    decreases n,
{
    if n <= 0 {
        Seq::empty()
    } else {
        enc_groups(addr, n - 1) + be16(addr[n - 1])
    }
}

/// The eight groups written out.
pub proof fn lemma_enc_groups_8(addr: Seq<u16>)
    ensures
        enc_groups(addr, 8) == be16(addr[0]) + be16(addr[1]) + be16(addr[2]) + be16(addr[3]) + be16(
            addr[4],
        ) + be16(addr[5]) + be16(addr[6]) + be16(addr[7]),
{
    reveal_with_fuel(enc_groups, 9);
    assert(enc_groups(addr, 8) =~= be16(addr[0]) + be16(addr[1]) + be16(addr[2]) + be16(addr[3])
        + be16(addr[4]) + be16(addr[5]) + be16(addr[6]) + be16(addr[7]));
}

/// Each group takes two bytes.
pub proof fn lemma_enc_groups_len(addr: Seq<u16>, n: int)
    requires
        n >= 0,
    ensures
        enc_groups(addr, n).len() == 2 * n,
    decreases n,
{
    if n > 0 {
        lemma_enc_groups_len(addr, n - 1);
    }
}

} // verus!
