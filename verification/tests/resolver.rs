use diydns::resolver::ResolveStep;
use diydns::{BytePacketBuffer, DnsError, DnsHeader, DnsPacket, DnsQuestion, DnsRecord, QueryType,
    ResultCode, Transport};

const ROOT: u32 = 0xC6290004; // 198.41.0.4

/// A scripted nameserver chain: hands out the prepared replies in order
/// and records which server each query went to.
struct MockChain {
    replies: Vec<Vec<u8>>,
    asked: Vec<u32>,
    requests: Vec<Vec<u8>>,
}

impl MockChain {
    fn new(replies: Vec<Vec<u8>>) -> MockChain {
        MockChain { replies, asked: Vec::new(), requests: Vec::new() }
    }
}

impl Transport for MockChain {
    fn exchange(&mut self, server: u32, request: &[u8]) -> Result<Vec<u8>, DnsError> {
        self.asked.push(server);
        self.requests.push(request.to_vec());
        if self.replies.is_empty() {
            Err(DnsError::TransportError)
        } else {
            Ok(self.replies.remove(0))
        }
    }
}

fn response_header(rescode: ResultCode) -> DnsHeader {
    DnsHeader {
        id: 1,
        recursion_desired: false,
        truncated_message: false,
        authoritative_answer: false,
        opcode: 0,
        response: true,
        rescode,
        checking_disabled: false,
        authed_data: false,
        z: false,
        recursion_available: false,
        questions: 0,
        answers: 0,
        authoritative_entries: 0,
        resource_entries: 0,
    }
}

fn encode(
    rescode: ResultCode,
    answers: Vec<DnsRecord>,
    authorities: Vec<DnsRecord>,
    resources: Vec<DnsRecord>,
) -> Vec<u8> {
    let mut header = response_header(rescode);
    header.answers = answers.len() as u16;
    header.authoritative_entries = authorities.len() as u16;
    header.resource_entries = resources.len() as u16;
    let packet = DnsPacket { header, questions: vec![], answers, authorities, resources };
    let mut b = BytePacketBuffer::new();
    b.write_packet(packet).unwrap();
    b.buf[0..b.pos].to_vec()
}

fn a_rec(domain: &str, addr: u32) -> DnsRecord {
    DnsRecord::A { domain: domain.to_string(), addr, ttl: 60 }
}

fn ns_rec(domain: &str, host: &str) -> DnsRecord {
    DnsRecord::NS { domain: domain.to_string(), host: host.to_string(), ttl: 60 }
}

fn sample_packet() -> DnsPacket {
    let mut header = response_header(ResultCode::Success);
    header.answers = 3;
    header.authoritative_entries = 2;
    header.resource_entries = 2;
    DnsPacket {
        header,
        questions: vec![],
        answers: vec![
            ns_rec("example.com", "ns.example.com"),
            a_rec("www.example.com", 0x01010101),
            a_rec("www.example.com", 0x02020202),
        ],
        authorities: vec![ns_rec("org", "ns.org"), ns_rec("example.com", "gl.example.com")],
        resources: vec![a_rec("other.example.com", 0x0A0A0A0A), a_rec("gl.example.com", 0x0B0B0B0B)],
    }
}

#[test]
fn get_random_a_takes_first_a_answer() {
    let p = sample_packet();
    assert_eq!(p.get_random_a(), Some(0x01010101));
    let mut empty = sample_packet();
    empty.answers = vec![ns_rec("x", "y")];
    empty.header.answers = 1;
    assert_eq!(empty.get_random_a(), None);
}

#[test]
fn get_unresolved_ns_matches_suffix_in_order() {
    let p = sample_packet();
    assert_eq!(p.get_unresolved_ns("www.example.com"), Some("gl.example.com".to_string()));
    assert_eq!(p.get_unresolved_ns("www.example.org"), Some("ns.org".to_string()));
    assert_eq!(p.get_unresolved_ns("example.net"), None);
}

#[test]
fn get_resolved_ns_needs_matching_glue() {
    let p = sample_packet();
    // the matching NS target gl.example.com has an A record in the
    // additional section
    assert_eq!(p.get_resolved_ns("www.example.com"), Some(0x0B0B0B0B));
    // ns.org matches but has no glue, and no other NS matches
    assert_eq!(p.get_resolved_ns("www.example.org"), None);
}

#[test]
fn resolution_stops_on_first_success() {
    let reply = encode(ResultCode::Success, vec![a_rec("www.example.com", 0x08080404)], vec![], vec![]);
    let mut chain = MockChain::new(vec![reply]);
    let got = diydns::resolver::recursive_lookup(&mut chain, "www.example.com", QueryType::A, ROOT, 8, 77)
        .unwrap();
    assert_eq!(chain.asked, vec![ROOT]);
    assert_eq!(got.header.rescode, ResultCode::Success);
    assert_eq!(got.answers, vec![a_rec("www.example.com", 0x08080404)]);
}

#[test]
fn resolution_stops_on_nxdomain() {
    let reply = encode(
        ResultCode::NonexistantDomain,
        vec![],
        vec![ns_rec("com", "a.gtld-servers.net")],
        vec![a_rec("a.gtld-servers.net", 0x0C0C0C0C)],
    );
    let mut chain = MockChain::new(vec![reply]);
    let got = diydns::resolver::recursive_lookup(&mut chain, "no.such.com", QueryType::A, ROOT, 8, 77)
        .unwrap();
    // exactly one query: no NS-glue fallback after an authoritative no
    assert_eq!(chain.asked, vec![ROOT]);
    assert_eq!(got.header.rescode, ResultCode::NonexistantDomain);
    assert!(got.answers.is_empty());
}

#[test]
fn delegation_walk_follows_glue() {
    let delegation = encode(
        ResultCode::Success,
        vec![],
        vec![ns_rec("com", "a.gtld-servers.net")],
        vec![a_rec("a.gtld-servers.net", 0x0C0C0C0C)],
    );
    let answer = encode(ResultCode::Success, vec![a_rec("www.site.com", 0x05050505)], vec![], vec![]);
    let mut chain = MockChain::new(vec![delegation, answer]);
    let got = diydns::resolver::recursive_lookup(&mut chain, "www.site.com", QueryType::A, ROOT, 8, 77)
        .unwrap();
    // the second query went to the glue address, not back to the root
    assert_eq!(chain.asked, vec![ROOT, 0x0C0C0C0C]);
    assert_eq!(got.answers, vec![a_rec("www.site.com", 0x05050505)]);
}

#[test]
fn delegation_without_glue_resolves_the_nameserver() {
    let delegation = encode(
        ResultCode::Success,
        vec![],
        vec![ns_rec("com", "ns.helper.net")],
        vec![],
    );
    let helper = encode(ResultCode::Success, vec![a_rec("ns.helper.net", 0x07070707)], vec![], vec![]);
    let answer = encode(ResultCode::Success, vec![a_rec("www.site.com", 0x09090909)], vec![], vec![]);
    let mut chain = MockChain::new(vec![delegation, helper, answer]);
    let got = diydns::resolver::recursive_lookup(&mut chain, "www.site.com", QueryType::A, ROOT, 8, 77)
        .unwrap();
    // the nested resolution starts over at the root, then the walk
    // adopts the address it found
    assert_eq!(chain.asked, vec![ROOT, ROOT, 0x07070707]);
    assert_eq!(got.answers, vec![a_rec("www.site.com", 0x09090909)]);
}

#[test]
fn no_delegation_returns_last_reply() {
    let reply = encode(ResultCode::Success, vec![], vec![], vec![]);
    let mut chain = MockChain::new(vec![reply]);
    let got = diydns::resolver::recursive_lookup(&mut chain, "www.example.com", QueryType::A, ROOT, 8, 77)
        .unwrap();
    assert_eq!(chain.asked, vec![ROOT]);
    assert!(got.answers.is_empty());
}

#[test]
fn spent_hop_budget_is_unresolvable() {
    let mut chain = MockChain::new(vec![]);
    let got = diydns::resolver::recursive_lookup(&mut chain, "www.example.com", QueryType::A, ROOT, 0, 77);
    assert_eq!(got, Err(DnsError::UnresolvableDelegation));
    assert!(chain.asked.is_empty());
}

fn encode_request(id: u16, questions: Vec<DnsQuestion>) -> Vec<u8> {
    let mut header = response_header(ResultCode::Success);
    header.id = id;
    header.response = false;
    header.questions = questions.len() as u16;
    let packet = DnsPacket { header, questions, answers: vec![], authorities: vec![], resources: vec![] };
    let mut b = BytePacketBuffer::new();
    b.write_packet(packet).unwrap();
    b.buf[0..b.pos].to_vec()
}

#[test]
fn malformed_datagram_gets_no_reply() {
    let mut chain = MockChain::new(vec![]);
    // a result-code nibble outside the closed set fails the decode
    let mut garbage = vec![0u8; 12];
    garbage[3] = 0x06;
    let r = diydns::resolver::handle_request(&mut chain, &garbage, ROOT, 8);
    assert!(r.is_none());
    // a question count with no decodable question behind it fails too
    let mut truncated = vec![0u8; 12];
    truncated[5] = 1; // one question
    truncated.push(0xC0); // whose name is a pointer into itself
    truncated.push(0x0C);
    let r2 = diydns::resolver::handle_request(&mut chain, &truncated, ROOT, 8);
    assert!(r2.is_none());
    // and the transport was never touched
    assert!(chain.asked.is_empty());
}

#[test]
fn zero_question_request_gets_format_error() {
    let request = encode_request(0x4242, vec![]);
    let mut chain = MockChain::new(vec![]);
    let reply = diydns::resolver::handle_request(&mut chain, &request, ROOT, 8).unwrap();
    assert!(chain.asked.is_empty());
    let mut b = BytePacketBuffer::from_bytes(&reply.buf[0..reply.pos]);
    let packet = b.read_packet().unwrap();
    assert_eq!(packet.header.id, 0x4242);
    assert_eq!(packet.header.rescode, ResultCode::FormError);
    assert!(packet.header.response);
    assert!(packet.questions.is_empty());
}

#[test]
fn served_answer_mirrors_the_request_id() {
    let request = encode_request(
        0x7777,
        vec![DnsQuestion { name: "www.example.com".to_string(), qtype: QueryType::A }],
    );
    let answer = encode(ResultCode::Success, vec![a_rec("www.example.com", 0x0D0D0D0D)], vec![], vec![]);
    let mut chain = MockChain::new(vec![answer]);
    let reply = diydns::resolver::handle_request(&mut chain, &request, ROOT, 8).unwrap();
    assert_eq!(chain.asked, vec![ROOT]);
    let mut b = BytePacketBuffer::from_bytes(&reply.buf[0..reply.pos]);
    let packet = b.read_packet().unwrap();
    assert_eq!(packet.header.id, 0x7777);
    assert_eq!(packet.header.rescode, ResultCode::Success);
    assert!(packet.header.response);
    assert!(packet.header.recursion_available);
    assert_eq!(
        packet.questions,
        vec![DnsQuestion { name: "www.example.com".to_string(), qtype: QueryType::A }]
    );
    assert_eq!(packet.answers, vec![a_rec("www.example.com", 0x0D0D0D0D)]);
}

#[test]
fn failed_resolution_is_served_as_server_failure() {
    let request = encode_request(
        0x0001,
        vec![DnsQuestion { name: "www.example.com".to_string(), qtype: QueryType::A }],
    );
    // the transport has no replies at all, so resolution fails
    let mut chain = MockChain::new(vec![]);
    let reply = diydns::resolver::handle_request(&mut chain, &request, ROOT, 8).unwrap();
    let mut b = BytePacketBuffer::from_bytes(&reply.buf[0..reply.pos]);
    let packet = b.read_packet().unwrap();
    assert_eq!(packet.header.id, 0x0001);
    assert_eq!(packet.header.rescode, ResultCode::ServerFail);
}

#[test]
fn queries_carry_the_callers_id_and_question() {
    let reply = encode(ResultCode::Success, vec![a_rec("www.example.com", 1)], vec![], vec![]);
    let mut chain = MockChain::new(vec![reply]);
    diydns::resolver::recursive_lookup(&mut chain, "www.example.com", QueryType::A, ROOT, 8, 0x5EED)
        .unwrap();
    let mut b = BytePacketBuffer::from_bytes(&chain.requests[0]);
    let query = b.read_packet().unwrap();
    assert_eq!(query.header.id, 0x5EED);
    assert!(query.header.recursion_desired);
    assert!(!query.header.response);
    assert_eq!(
        query.questions,
        vec![DnsQuestion { name: "www.example.com".to_string(), qtype: QueryType::A }]
    );
    assert!(query.answers.is_empty());
}

#[test]
fn resolve_step_decides_each_case() {
    // a final reply: answers under Success
    let mut final_reply = sample_packet();
    let step = diydns::resolver::resolve_step(final_reply.clone(), "www.example.com");
    assert_eq!(step, ResolveStep::Answer(final_reply.clone()));
    // an authoritative NameError is final even without answers
    final_reply.answers.clear();
    final_reply.header.answers = 0;
    final_reply.header.rescode = ResultCode::NonexistantDomain;
    let step = diydns::resolver::resolve_step(final_reply.clone(), "www.example.com");
    assert_eq!(step, ResolveStep::Answer(final_reply.clone()));
    // a delegation with glue
    final_reply.header.rescode = ResultCode::Success;
    let step = diydns::resolver::resolve_step(final_reply.clone(), "www.example.com");
    assert_eq!(step, ResolveStep::Delegate(0x0B0B0B0B));
    // a delegation without glue
    let mut no_glue = final_reply.clone();
    no_glue.resources.clear();
    no_glue.header.resource_entries = 0;
    let step = diydns::resolver::resolve_step(no_glue.clone(), "www.example.com");
    assert_eq!(
        step,
        ResolveStep::ResolveNs { host: "gl.example.com".to_string(), last: no_glue.clone() }
    );
    // no delegation information at all
    let mut bare = no_glue.clone();
    bare.authorities.clear();
    bare.header.authoritative_entries = 0;
    let step = diydns::resolver::resolve_step(bare.clone(), "www.example.com");
    assert_eq!(step, ResolveStep::GiveUp(bare));
}

#[test]
fn build_response_mirrors_the_outcome() {
    let question = DnsQuestion { name: "www.example.com".to_string(), qtype: QueryType::A };
    let result = {
        let mut h = response_header(ResultCode::Success);
        h.answers = 1;
        DnsPacket {
            header: h,
            questions: vec![],
            answers: vec![a_rec("www.example.com", 9)],
            authorities: vec![],
            resources: vec![],
        }
    };
    let reply = diydns::resolver::build_response(0x0A0B, question.clone(), Ok(result));
    assert_eq!(reply.header.id, 0x0A0B);
    assert!(reply.header.response);
    assert!(reply.header.recursion_available);
    assert_eq!(reply.header.rescode, ResultCode::Success);
    assert_eq!(reply.header.questions, 1);
    assert_eq!(reply.questions, vec![question.clone()]);
    assert_eq!(reply.answers, vec![a_rec("www.example.com", 9)]);
    let failed = diydns::resolver::build_response(0x0A0B, question, Err(DnsError::TransportError));
    assert_eq!(failed.header.rescode, ResultCode::ServerFail);
    assert_eq!(failed.header.id, 0x0A0B);
    assert!(failed.questions.is_empty());
    assert!(failed.answers.is_empty());
}

#[test]
fn encoder_writes_the_actual_section_counts() {
    // the caller's header counts are ignored; the sections decide
    let mut header = response_header(ResultCode::Success);
    header.answers = 40;
    header.questions = 9;
    let packet = DnsPacket {
        header,
        questions: vec![],
        answers: vec![a_rec("a.example", 5), a_rec("b.example", 6)],
        authorities: vec![],
        resources: vec![],
    };
    let mut b = BytePacketBuffer::new();
    b.write_packet(packet).unwrap();
    b.seek(0);
    let decoded = b.read_packet().unwrap();
    assert_eq!(decoded.header.questions, 0);
    assert_eq!(decoded.header.answers, 2);
    assert_eq!(decoded.answers.len(), 2);
}
