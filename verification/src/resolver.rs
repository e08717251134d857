use vstd::prelude::*;

use vstd::utf8::encode_utf8;

use crate::buffer::BytePacketBuffer;
use crate::buffer::MAX_BUFFER_SIZE;
use crate::buffer::be16;
use crate::buffer::splice;
use crate::error::DnsError;
use crate::header::DnsHeader;
use crate::header::ResultCode;
use crate::name::labels_fit;
use crate::packet::DnsPacket;
use crate::packet::PacketDec;
use crate::packet::dec_packet;
use crate::packet::PacketV;
use crate::question::DnsQuestion;
use crate::question::QueryType;
use crate::question::QuestionV;
use crate::question::enc_question;
use crate::record::DnsRecord;
use crate::record::RecordV;

verus! {

/// One request/response exchange, as the resolver sees it: the transport
/// carries an encoded query datagram to a server and brings back the raw
/// bytes of whatever answered.  Implementations live at the boundary (a
/// UDP socket, or a scripted stand-in under test); the resolver is
/// verified for every reply they could hand back.
pub trait Transport {
    /// Deliver `request` to the IPv4 address `server` and return the
    /// reply datagram's bytes.
    fn exchange(&mut self, server: u32, request: &[u8]) -> Result<Vec<u8>, DnsError>;
}

// ---------------------------------------------------------------------
// Picking the next nameserver out of a response.
// ---------------------------------------------------------------------
/// `small` names a zone at or above `big`: its bytes end `big`'s bytes.
pub open spec fn is_name_suffix(small: Seq<char>, big: Seq<char>) -> bool {
    let sb = encode_utf8(small);
    let bb = encode_utf8(big);
    sb.len() <= bb.len() && bb.skip(bb.len() - sb.len()) == sb
}

/// The address of the first A record in the list.
pub open spec fn first_a(rs: Seq<RecordV>) -> Option<u32>
    decreases rs.len(),
{
    if rs.len() == 0 {
        Option::None
    } else {
        match rs[0] {
            RecordV::A { addr, .. } => Option::Some(addr),
            _ => first_a(rs.drop_first()),
        }
    }
}

/// The address of the first A record owned by `host`.
pub open spec fn first_a_for(rs: Seq<RecordV>, host: Seq<char>) -> Option<u32>
    decreases rs.len(),
{
    if rs.len() == 0 {
        Option::None
    } else {
        match rs[0] {
            RecordV::A { domain, addr, .. } => if domain == host {
                Option::Some(addr)
            } else {
                first_a_for(rs.drop_first(), host)
            },
            _ => first_a_for(rs.drop_first(), host),
        }
    }
}

/// The target host of the first NS record naming a zone that `q` falls
/// under.
pub open spec fn first_matching_ns(auth: Seq<RecordV>, q: Seq<char>) -> Option<Seq<char>>
    decreases auth.len(),
{
    if auth.len() == 0 {
        Option::None
    } else {
        match auth[0] {
            RecordV::NS { domain, host, .. } => if is_name_suffix(domain, q) {
                Option::Some(host)
            } else {
                first_matching_ns(auth.drop_first(), q)
            },
            _ => first_matching_ns(auth.drop_first(), q),
        }
    }
}

/// The glue address of the first matching NS record that has one: for
/// each NS record naming a zone `q` falls under, in order, the first A
/// record of the additional section owned by that NS target.
pub open spec fn resolved_ns(auth: Seq<RecordV>, res: Seq<RecordV>, q: Seq<char>) -> Option<u32>
    decreases auth.len(),
{
    if auth.len() == 0 {
        Option::None
    } else {
        match auth[0] {
            RecordV::NS { domain, host, .. } => if is_name_suffix(domain, q) {
                match first_a_for(res, host) {
                    Option::Some(a) => Option::Some(a),
                    Option::None => resolved_ns(auth.drop_first(), res, q),
                }
            } else {
                resolved_ns(auth.drop_first(), res, q)
            },
            _ => resolved_ns(auth.drop_first(), res, q),
        }
    }
}

/// Whether two names are the same string.
fn str_eq(a: &str, b: &str) -> (r: bool)
    ensures
        r == (a@ == b@),
{
    let ab: &[u8] = a.as_bytes();
    let bb: &[u8] = b.as_bytes();
    proof {
        vstd::utf8::encode_utf8_decode_utf8(a@);
        vstd::utf8::encode_utf8_decode_utf8(b@);
    }
    if ab.len() != bb.len() {
        return false;
    }
    let mut i: usize = 0;
    while i < ab.len()
        invariant
            i <= ab@.len(),
            ab@.len() == bb@.len(),
            ab@ == encode_utf8(a@),
            bb@ == encode_utf8(b@),
            vstd::utf8::decode_utf8(encode_utf8(a@)) == a@,
            vstd::utf8::decode_utf8(encode_utf8(b@)) == b@,
            forall|j: int| 0 <= j < i ==> ab@[j] == bb@[j],
        decreases ab@.len() - i,
    {
        if ab[i] != bb[i] {
            return false;
        }
        i = i + 1;
    }
    proof {
        assert(ab@ =~= bb@);
    }
    true
}

/// Whether `small` names a zone at or above `big`, compared byte-wise.
fn name_ends_with(big: &str, small: &str) -> (r: bool)
    ensures
        r == is_name_suffix(small@, big@),
{
    let bb: &[u8] = big.as_bytes();
    let sb: &[u8] = small.as_bytes();
    if sb.len() > bb.len() {
        return false;
    }
    let off: usize = bb.len() - sb.len();
    let mut i: usize = 0;
    while i < sb.len()
        invariant
            i <= sb@.len(),
            off == bb@.len() - sb@.len(),
            sb@.len() <= bb@.len(),
            bb@.len() <= usize::MAX,
            bb@ == encode_utf8(big@),
            sb@ == encode_utf8(small@),
            forall|j: int| 0 <= j < i ==> bb@[off + j] == sb@[j],
        decreases sb@.len() - i,
    {
        if bb[off + i] != sb[i] {
            proof {
                assert(bb@.skip(off as int)[i as int] != sb@[i as int]);
            }
            return false;
        }
        i = i + 1;
    }
    proof {
        assert(bb@.skip(off as int) =~= sb@);
    }
    true
}

impl DnsPacket {
    /// The first usable glue: an A record in the additional section whose
    /// owner is an NS target named in the authority section for a zone
    /// `qname` falls under.
    pub fn get_resolved_ns(&self, qname: &str) -> (r: Option<u32>)
        ensures
            r == resolved_ns(self@.authorities, self@.resources, qname@),
    {
        let ghost auth = self@.authorities;
        let mut i: usize = 0;
        proof {
            assert(auth.skip(0) =~= auth);
        }
        while i < self.authorities.len()
            invariant
                i <= self.authorities@.len(),
                auth == self@.authorities,
                resolved_ns(auth, self@.resources, qname@) == resolved_ns(
                    auth.skip(i as int),
                    self@.resources,
                    qname@,
                ),
            decreases self.authorities@.len() - i,
        {
            proof {
                assert(auth.skip(i as int).drop_first() =~= auth.skip(i as int + 1));
                assert(auth.skip(i as int)[0] == self.authorities@[i as int]@);
            }
            match &self.authorities[i] {
                DnsRecord::NS { domain, host, .. } => {
                    if name_ends_with(qname, domain.as_str()) {
                        if let Some(a) = self.first_additional_a(host.as_str()) {
                            return Some(a);
                        }
                    }
                },
                _ => {},
            }
            i = i + 1;
        }
        proof {
            assert(auth.skip(auth.len() as int) =~= Seq::<RecordV>::empty());
        }
        None
    }

    /// The first A record of the additional section owned by `host`.
    fn first_additional_a(&self, host: &str) -> (r: Option<u32>)
        ensures
            r == first_a_for(self@.resources, host@),
    {
        let ghost res = self@.resources;
        let mut i: usize = 0;
        proof {
            assert(res.skip(0) =~= res);
        }
        while i < self.resources.len()
            invariant
                i <= self.resources@.len(),
                res == self@.resources,
                first_a_for(res, host@) == first_a_for(res.skip(i as int), host@),
            decreases self.resources@.len() - i,
        {
            proof {
                assert(res.skip(i as int).drop_first() =~= res.skip(i as int + 1));
                assert(res.skip(i as int)[0] == self.resources@[i as int]@);
            }
            match &self.resources[i] {
                DnsRecord::A { domain, addr, .. } => {
                    if str_eq(domain.as_str(), host) {
                        return Some(*addr);
                    }
                },
                _ => {},
            }
            i = i + 1;
        }
        proof {
            assert(res.skip(res.len() as int) =~= Seq::<RecordV>::empty());
        }
        None
    }

    /// The target host of the first NS record in the authority section
    /// naming a zone `qname` falls under, glue or no glue.
    pub fn get_unresolved_ns(&self, qname: &str) -> (r: Option<String>)
        ensures
            match first_matching_ns(self@.authorities, qname@) {
                Option::Some(h) => r is Some && r.unwrap()@ == h,
                Option::None => r is None,
            },
    {
        let ghost auth = self@.authorities;
        let mut i: usize = 0;
        proof {
            assert(auth.skip(0) =~= auth);
        }
        while i < self.authorities.len()
            invariant
                i <= self.authorities@.len(),
                auth == self@.authorities,
                first_matching_ns(auth, qname@) == first_matching_ns(auth.skip(i as int), qname@),
            decreases self.authorities@.len() - i,
        {
            proof {
                assert(auth.skip(i as int).drop_first() =~= auth.skip(i as int + 1));
                assert(auth.skip(i as int)[0] == self.authorities@[i as int]@);
            }
            match &self.authorities[i] {
                DnsRecord::NS { domain, host, .. } => {
                    if name_ends_with(qname, domain.as_str()) {
                        return Some(host.clone());
                    }
                },
                _ => {},
            }
            i = i + 1;
        }
        proof {
            assert(auth.skip(auth.len() as int) =~= Seq::<RecordV>::empty());
        }
        None
    }

    /// The address of the first A record in the answer section; the
    /// deliberate first-match policy for picking among several.
    pub fn get_random_a(&self) -> (r: Option<u32>)
        ensures
            r == first_a(self@.answers),
    {
        let ghost ans = self@.answers;
        let mut i: usize = 0;
        proof {
            assert(ans.skip(0) =~= ans);
        }
        while i < self.answers.len()
            invariant
                i <= self.answers@.len(),
                ans == self@.answers,
                first_a(ans) == first_a(ans.skip(i as int)),
            decreases self.answers@.len() - i,
        {
            proof {
                assert(ans.skip(i as int).drop_first() =~= ans.skip(i as int + 1));
                assert(ans.skip(i as int)[0] == self.answers@[i as int]@);
            }
            match &self.answers[i] {
                DnsRecord::A { addr, .. } => {
                    return Some(*addr);
                },
                _ => {},
            }
            i = i + 1;
        }
        proof {
            assert(ans.skip(ans.len() as int) =~= Seq::<RecordV>::empty());
        }
        None
    }
}

/// The header of a query: the given transaction id, the
/// recursion-desired flag, one question, nothing else.
pub open spec fn query_header(id: u16) -> DnsHeader {
    DnsHeader {
        id,
        recursion_desired: true,
        truncated_message: false,
        authoritative_answer: false,
        opcode: 0,
        response: false,
        rescode: ResultCode::Success,
        checking_disabled: false,
        authed_data: false,
        z: false,
        recursion_available: false,
        questions: 1,
        answers: 0,
        authoritative_entries: 0,
        resource_entries: 0,
    }
}

/// Build the query message for one question.  The transaction id comes
/// from the caller: a fresh id is the boundary's to draw, since the
/// library computes nothing from chance.
pub fn build_query(qname: &str, qtype: QueryType, id: u16) -> (r: DnsPacket)
    ensures
        r.wf(),
        r.header == query_header(id),
        r@.questions == seq![QuestionV { name: qname@, qtype }],
        r@.answers.len() == 0,
        r@.authorities.len() == 0,
        r@.resources.len() == 0,
{
    let mut packet: DnsPacket = Default::default();
    packet.header.id = id;
    packet.header.questions = 1;
    packet.header.recursion_desired = true;
    packet.questions.push(DnsQuestion { name: qname.to_owned(), qtype });
    proof {
        assert(packet@.questions =~= seq![QuestionV { name: qname@, qtype }]);
    }
    packet
}

/// Ask one server one question and decode its reply.  The query is built
/// by [`build_query`] (the given transaction id, recursion desired,
/// exactly that question) and encoded under `write_packet`'s exact
/// contract; whatever bytes the transport brings back are decoded by
/// `read_packet`, so every guarantee on the result comes from
/// [`crate::packet::dec_packet`].
pub fn lookup<T: Transport>(
    transport: &mut T,
    qname: &str,
    qtype: QueryType,
    server: u32,
    id: u16,
) -> (r: Result<DnsPacket, DnsError>)
    ensures
        !labels_fit(encode_utf8(qname@)) ==> r == Err::<DnsPacket, DnsError>(
            DnsError::LabelTooLong,
        ),
        labels_fit(encode_utf8(qname@)) && 12 + enc_question(
            QuestionV { name: qname@, qtype },
        ).len() > MAX_BUFFER_SIZE ==> r == Err::<DnsPacket, DnsError>(DnsError::BoundsError),
        r is Ok ==> r.unwrap().wf(),
{
    let packet = build_query(qname, qtype, id);
    let ghost pv = packet@;
    let mut req_buffer = BytePacketBuffer::new();
    proof {
        assert(crate::packet::counted(pv) == pv);
        assert(pv.questions[0] == (QuestionV { name: qname@, qtype }));
        assert(pv.questions.drop_first() =~= Seq::<QuestionV>::empty());
        assert(crate::packet::enc_questions(pv.questions) == enc_question(
            QuestionV { name: qname@, qtype },
        ) + crate::packet::enc_questions(Seq::<QuestionV>::empty()));
        assert(crate::packet::enc_packet(pv).len() == 12 + enc_question(
            QuestionV { name: qname@, qtype },
        ).len());
    }
    req_buffer.write_packet(packet)?;
    let data = transport.exchange(server, &req_buffer.buf[0..req_buffer.pos])?;
    let mut res_buffer = BytePacketBuffer::from_bytes(data.as_slice());
    let response = res_buffer.read_packet()?;
    proof {
        crate::packet::lemma_dec_packet_wf(res_buffer.buf@, 0);
    }
    Ok(response)
}

/// What one reply tells the delegation walk to do next.
#[derive(Debug, PartialEq, Eq)]
pub enum ResolveStep {
    /// The reply is final: a non-empty answer section with a Success
    /// code, or an authoritative NameError.
    Answer(DnsPacket),
    /// A delegation with usable glue: ask this address next.
    Delegate(u32),
    /// A delegation without glue: resolve this NS target first, keeping
    /// the reply in case nothing comes of it.
    ResolveNs { host: String, last: DnsPacket },
    /// No delegation information at all: the reply is the final answer.
    GiveUp(DnsPacket),
}

/// A reply that ends the walk: answers under a Success code, or an
/// authoritative NameError.
pub open spec fn is_final_reply(p: PacketV) -> bool {
    (p.answers.len() > 0 && p.header.rescode == ResultCode::Success) || p.header.rescode
        == ResultCode::NonexistantDomain
}

/// Decide one round of the delegation walk from a decoded reply: finish
/// with a final reply; adopt the glue address of a matching delegation;
/// resolve the first matching NS target when its glue is missing; give
/// the reply up as the final answer when no delegation matches.  Each
/// case is pinned exactly, so the walk's policy is this contract.
pub fn resolve_step(response: DnsPacket, qname: &str) -> (r: ResolveStep)
    ensures
        is_final_reply(response@) ==> r == ResolveStep::Answer(response),
        !is_final_reply(response@) ==> (resolved_ns(
            response@.authorities,
            response@.resources,
            qname@,
        ) matches Option::Some(ip) ==> r == ResolveStep::Delegate(ip)),
        !is_final_reply(response@) && resolved_ns(
            response@.authorities,
            response@.resources,
            qname@,
        ) is None ==> (first_matching_ns(response@.authorities, qname@) matches Option::Some(h)
            ==> (r matches ResolveStep::ResolveNs { host, last } && host@ == h && last
            == response)),
        !is_final_reply(response@) && resolved_ns(
            response@.authorities,
            response@.resources,
            qname@,
        ) is None && first_matching_ns(response@.authorities, qname@) is None ==> r
            == ResolveStep::GiveUp(response),
{
    if !response.answers.is_empty() && response.header.rescode == ResultCode::Success {
        return ResolveStep::Answer(response);
    }
    if response.header.rescode == ResultCode::NonexistantDomain {
        return ResolveStep::Answer(response);
    }
    if let Some(ip) = response.get_resolved_ns(qname) {
        return ResolveStep::Delegate(ip);
    }
    match response.get_unresolved_ns(qname) {
        Some(host) => ResolveStep::ResolveNs { host, last: response },
        None => ResolveStep::GiveUp(response),
    }
}

/// Resolve a name by walking the delegation hierarchy downward from
/// `root_ns`.
///
/// Each round asks the current nameserver through [`lookup`] and acts on
/// [`resolve_step`]'s decision, whose contract pins the policy exactly:
/// a final reply is returned as-is (a NameError with no fallback); glue
/// is adopted for the next query; a glueless NS target is resolved by a
/// nested walk from the root, adopting the first address of its answers
/// or returning the kept reply when it has none; with no delegation at
/// all the last reply is the final answer.  `max_hops` bounds the total
/// number of queries on this walk, against delegation loops; a spent
/// budget is [`DnsError::UnresolvableDelegation`].  The transaction id
/// is the caller's and serves every query of the walk.
pub fn recursive_lookup<T: Transport>(
    transport: &mut T,
    qname: &str,
    qtype: QueryType,
    root_ns: u32,
    max_hops: u32,
    id: u16,
) -> (r: Result<DnsPacket, DnsError>)
    ensures
        max_hops == 0 ==> r == Err::<DnsPacket, DnsError>(DnsError::UnresolvableDelegation),
        r is Ok ==> r.unwrap().wf(),
    decreases max_hops,
{
    let mut ns: u32 = root_ns;
    let mut hops: u32 = max_hops;
    loop
        invariant
            hops <= max_hops,
        decreases hops,
    {
        if hops == 0 {
            return Err(DnsError::UnresolvableDelegation);
        }
        hops = hops - 1;
        let response = lookup(transport, qname, qtype, ns, id)?;
        match resolve_step(response, qname) {
            ResolveStep::Answer(p) => {
                return Ok(p);
            },
            ResolveStep::Delegate(ip) => {
                ns = ip;
            },
            ResolveStep::ResolveNs { host, last } => {
                let recursive_response = recursive_lookup(
                    transport,
                    host.as_str(),
                    QueryType::A,
                    root_ns,
                    hops,
                    id,
                )?;
                match recursive_response.get_random_a() {
                    Some(ip) => {
                        ns = ip;
                    },
                    None => {
                        return Ok(last);
                    },
                }
            },
            ResolveStep::GiveUp(p) => {
                return Ok(p);
            },
        }
    }
}

/// The zero-padded buffer a received datagram is decoded from.
pub open spec fn datagram_view(data: Seq<u8>) -> Seq<u8> {
    Seq::new(MAX_BUFFER_SIZE as nat, |i: int| if i < data.len() { data[i] } else { 0u8 })
}

/// The header every reply of the server carries: the request's id, the
/// response, recursion-desired and recursion-available flags, the given
/// result code and counts, everything else clear.
pub open spec fn reply_header(
    id: u16,
    rescode: ResultCode,
    questions: u16,
    answers: u16,
    authoritative_entries: u16,
    resource_entries: u16,
) -> DnsHeader {
    DnsHeader {
        id,
        recursion_desired: true,
        truncated_message: false,
        authoritative_answer: false,
        opcode: 0,
        response: true,
        rescode,
        checking_disabled: false,
        authed_data: false,
        z: false,
        recursion_available: true,
        questions,
        answers,
        authoritative_entries,
        resource_entries,
    }
}

/// The header of the reply to a request that carried no question.
pub open spec fn format_error_header(id: u16) -> DnsHeader {
    reply_header(id, ResultCode::FormError, 0, 0, 0, 0)
}

/// Build the reply to one question from the walk's outcome.  On success
/// the reply mirrors the question and carries the result's code,
/// sections and counts; on failure it is a bare ServerFail.  Either way
/// it carries the request's id with the response and recursion flags.
pub fn build_response(id: u16, question: DnsQuestion, outcome: Result<DnsPacket, DnsError>) -> (r:
    DnsPacket)
    requires
        outcome matches Ok(p) ==> p.wf(),
    ensures
        r.wf(),
        outcome matches Ok(result) ==> r@ == (PacketV {
            header: reply_header(
                id,
                result.header.rescode,
                1,
                result.header.answers,
                result.header.authoritative_entries,
                result.header.resource_entries,
            ),
            questions: seq![question@],
            answers: result@.answers,
            authorities: result@.authorities,
            resources: result@.resources,
        }),
        outcome is Err ==> r@ == (PacketV {
            header: reply_header(id, ResultCode::ServerFail, 0, 0, 0, 0),
            questions: seq![],
            answers: seq![],
            authorities: seq![],
            resources: seq![],
        }),
{
    let mut header: DnsHeader = Default::default();
    header.id = id;
    header.recursion_desired = true;
    header.recursion_available = true;
    header.response = true;
    let mut packet: DnsPacket = Default::default();
    match outcome {
        Ok(result) => {
            header.rescode = result.header.rescode;
            header.questions = 1;
            header.answers = result.header.answers;
            header.authoritative_entries = result.header.authoritative_entries;
            header.resource_entries = result.header.resource_entries;
            packet.header = header;
            packet.questions.push(question);
            packet.answers = result.answers;
            packet.authorities = result.authorities;
            packet.resources = result.resources;
            proof {
                assert(packet@.questions =~= seq![question@]);
            }
        },
        Err(_) => {
            header.rescode = ResultCode::ServerFail;
            packet.header = header;
            proof {
                assert(packet@.questions =~= Seq::<QuestionV>::empty());
                assert(packet@.answers =~= Seq::<RecordV>::empty());
                assert(packet@.authorities =~= Seq::<RecordV>::empty());
                assert(packet@.resources =~= Seq::<RecordV>::empty());
            }
        },
    }
    packet
}

/// Serve one inbound datagram: decode it, resolve its first question,
/// and encode the reply.
///
/// A datagram that does not decode gets no reply at all—bad input never
/// stops the serving loop.  A decodable request with no question gets a
/// FormatError reply carrying its transaction id.  Otherwise the first
/// question drives a delegation walk under the request's id, and
/// [`build_response`]'s contract pins the reply built from its outcome—
/// the result's code and sections, or ServerFail when resolution fails.
/// Every reply sent mirrors the request's id and carries the response
/// and recursion-available flags.
#[verifier::rlimit(80)]
pub fn handle_request<T: Transport>(
    transport: &mut T,
    data: &[u8],
    root_ns: u32,
    max_hops: u32,
) -> (r: Option<BytePacketBuffer>)
    ensures
        match dec_packet(datagram_view(data@), 0) {
            PacketDec::Fail(_) => r is None,
            PacketDec::Done { p, end } => {
                &&& (p.questions.len() == 0 ==> r is Some && r.unwrap().wf() && r.unwrap().pos == 12
                    && r.unwrap().buf@.subrange(0, 12) == format_error_header(p.header.id).enc())
                &&& (p.questions.len() > 0 ==> (r is None || (r.unwrap().wf() && 12
                    <= r.unwrap().pos <= MAX_BUFFER_SIZE && r.unwrap().buf@.subrange(0, 2) == be16(
                    p.header.id,
                ) && r.unwrap().buf@[2] == 0x81 && (r.unwrap().buf@[3] & 0xF0) == 0x80)))
            },
        },
{
    let mut req_buffer = BytePacketBuffer::from_bytes(data);
    proof {
        assert(req_buffer.buf@ =~= datagram_view(data@));
    }
    let request = match req_buffer.read_packet() {
        Ok(p) => p,
        Err(_) => {
            return None;
        },
    };
    let packet: DnsPacket;
    if request.questions.is_empty() {
        let mut header: DnsHeader = Default::default();
        header.id = request.header.id;
        header.recursion_desired = true;
        header.recursion_available = true;
        header.response = true;
        header.rescode = ResultCode::FormError;
        let mut p: DnsPacket = Default::default();
        p.header = header;
        packet = p;
        proof {
            assert(packet.header == format_error_header(request.header.id));
        }
    } else {
        let q0 = &request.questions[0];
        let qname = q0.name.clone();
        let qtype = q0.qtype;
        let outcome = recursive_lookup(
            transport,
            qname.as_str(),
            qtype,
            root_ns,
            max_hops,
            request.header.id,
        );
        packet = build_response(request.header.id, DnsQuestion { name: qname, qtype }, outcome);
    }
    let ghost rescode_num = packet.header.rescode.spec_num();
    proof {
        assert(packet.header.flags_a() == 0x81) by {
            assert((1u8 | (0u8 << 1) | (0u8 << 2) | (0u8 << 3) | (1u8 << 7)) == 0x81u8)
                by (bit_vector);
        }
        assert((packet.header.flags_b() & 0xF0) == 0x80) by {
            assert(rescode_num <= 5 ==> (((rescode_num | (0u8 << 4) | (0u8 << 5) | (0u8 << 6) | (
            1u8 << 7)) as u8) & 0xF0) == 0x80) by (bit_vector);
        }
    }
    let mut res_buffer = BytePacketBuffer::new();
    match res_buffer.write_packet(packet) {
        Ok(()) => {
            proof {
                assert(res_buffer.buf@.subrange(0, 12) =~= packet.header.enc());
                assert(res_buffer.buf@.subrange(0, 2) =~= be16(packet.header.id));
                assert(packet.header.enc()[2] == packet.header.flags_a());
                assert(packet.header.enc()[3] == packet.header.flags_b());
                assert(res_buffer.buf@[2] == packet.header.flags_a());
                assert(res_buffer.buf@[3] == packet.header.flags_b());
            }
            Some(res_buffer)
        },
        Err(_) => None,
    }
}

} // verus!
