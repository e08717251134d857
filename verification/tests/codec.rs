use diydns::{BytePacketBuffer, DnsError, DnsHeader, DnsPacket, DnsQuestion, DnsRecord, QueryType,
    ResultCode, MAX_BUFFER_SIZE};

fn blank_header() -> DnsHeader {
    DnsHeader {
        id: 0,
        recursion_desired: false,
        truncated_message: false,
        authoritative_answer: false,
        opcode: 0,
        response: false,
        rescode: ResultCode::Success,
        checking_disabled: false,
        authed_data: false,
        z: false,
        recursion_available: false,
        questions: 0,
        answers: 0,
        authoritative_entries: 0,
        resource_entries: 0,
    }
}

#[test]
fn new_buffer_is_zeroed() {
    let b = BytePacketBuffer::new();
    assert_eq!(b.pos, 0);
    assert_eq!(b.buf.len(), MAX_BUFFER_SIZE);
    assert!(b.buf.iter().all(|&x| x == 0));
}

#[test]
fn reads_beyond_capacity_fail() {
    let mut b = BytePacketBuffer::new();
    b.seek(MAX_BUFFER_SIZE);
    assert_eq!(b.read(), Err(DnsError::BoundsError));
    assert_eq!(b.read_u16(), Err(DnsError::BoundsError));
    assert_eq!(b.read_u32(), Err(DnsError::BoundsError));
    assert_eq!(b.get(MAX_BUFFER_SIZE), Err(DnsError::BoundsError));
    assert_eq!(b.get(10_000), Err(DnsError::BoundsError));
    b.seek(511);
    assert_eq!(b.read_u16(), Err(DnsError::BoundsError));
    assert_eq!(b.read(), Ok(0));
}

#[test]
fn writes_beyond_capacity_fail() {
    let mut b = BytePacketBuffer::new();
    b.seek(MAX_BUFFER_SIZE);
    assert_eq!(b.write(1), Err(DnsError::BoundsError));
    b.seek(511);
    assert_eq!(b.write_u16(0xFFFF), Err(DnsError::BoundsError));
    assert_eq!(b.write(7), Ok(()));
    assert_eq!(b.set(MAX_BUFFER_SIZE, 1), Err(DnsError::BoundsError));
    assert_eq!(b.set_u16(511, 1), Err(DnsError::BoundsError));
    assert_eq!(b.get(511), Ok(7));
}

#[test]
fn get_range_checks_both_ends() {
    let b = BytePacketBuffer::new();
    assert!(b.get_range(0, MAX_BUFFER_SIZE).is_ok());
    assert!(b.get_range(510, 2).is_ok());
    assert_eq!(
        b.get_range(510, 3).err(),
        Some(DnsError::BoundsError)
    );
    assert_eq!(
        b.get_range(MAX_BUFFER_SIZE, 1).err(),
        Some(DnsError::BoundsError)
    );
}

#[test]
fn scalar_roundtrip() {
    let mut b = BytePacketBuffer::new();
    b.write_u16(0xABCD).unwrap();
    b.write_u32(0x01020304).unwrap();
    b.seek(0);
    assert_eq!(b.read_u16(), Ok(0xABCD));
    assert_eq!(b.read_u32(), Ok(0x01020304));
    assert_eq!(b.buf[0], 0xAB);
    assert_eq!(b.buf[1], 0xCD);
    b.set_u16(0, 0x1234).unwrap();
    b.seek(0);
    assert_eq!(b.read_u16(), Ok(0x1234));
}

#[test]
fn qname_roundtrip() {
    let mut b = BytePacketBuffer::new();
    b.write_qname("google.com").unwrap();
    assert_eq!(b.pos, 12); // 1+6 + 1+3 + 1
    assert_eq!(&b.buf[0..12], &[6, b'g', b'o', b'o', b'g', b'l', b'e', 3, b'c', b'o', b'm', 0]);
    b.seek(0);
    assert_eq!(b.read_qname(), Ok("google.com".to_string()));
    assert_eq!(b.pos, 12);
}

#[test]
fn qname_decode_folds_case() {
    let data = [3, b'W', b'W', b'W', 4, b'T', b'e', b'S', b't', 0];
    let mut b = BytePacketBuffer::from_bytes(&data);
    assert_eq!(b.read_qname(), Ok("www.test".to_string()));
}

#[test]
fn label_longer_than_63_bytes_is_rejected() {
    let mut b = BytePacketBuffer::new();
    let long = "a".repeat(64);
    let name = format!("{}.com", long);
    assert_eq!(b.write_qname(&name), Err(DnsError::LabelTooLong));
    // no partial output is observable
    assert_eq!(b.pos, 0);
    assert!(b.buf.iter().all(|&x| x == 0));
    // 63 bytes is still fine
    let ok = "b".repeat(63);
    assert_eq!(b.write_qname(&ok), Ok(()));
}

#[test]
fn compression_pointer_expands_and_cursor_stays() {
    // a name at offset 0, then a name at offset 9 whose tail is a
    // pointer back to offset 0
    let data = [
        3, b'f', b'o', b'o', 3, b'c', b'o', b'm', 0, // foo.com
        3, b'w', b'w', b'w', 0xC0, 0x00, // www + pointer to 0
    ];
    let mut b = BytePacketBuffer::from_bytes(&data);
    b.seek(9);
    assert_eq!(b.read_qname(), Ok("www.foo.com".to_string()));
    // two bytes past the pointer, not past the jump target
    assert_eq!(b.pos, 15);
}

#[test]
fn pointer_loop_is_detected() {
    let data = [0xC0, 0x00];
    let mut b = BytePacketBuffer::from_bytes(&data);
    assert_eq!(b.read_qname(), Err(DnsError::PointerLoop));
    assert_eq!(b.pos, 0);
}

#[test]
fn truncated_name_fails_bounds() {
    // a length byte promising more than the buffer holds from 510 on
    let mut b = BytePacketBuffer::new();
    b.set(510, 60).unwrap();
    b.seek(510);
    assert_eq!(b.read_qname(), Err(DnsError::BoundsError));
}

#[test]
fn header_roundtrip() {
    let mut h = blank_header();
    h.id = 0xBEEF;
    h.recursion_desired = true;
    h.authoritative_answer = true;
    h.opcode = 5;
    h.response = true;
    h.rescode = ResultCode::Refused;
    h.authed_data = true;
    h.recursion_available = true;
    h.questions = 1;
    h.answers = 2;
    h.authoritative_entries = 3;
    h.resource_entries = 4;
    let mut b = BytePacketBuffer::new();
    b.write_header(h).unwrap();
    assert_eq!(b.pos, 12);
    b.seek(0);
    assert_eq!(b.read_header(), Ok(h));
}

#[test]
fn rescode_outside_closed_set_is_malformed() {
    let mut b = BytePacketBuffer::new();
    b.set(3, 0x06).unwrap(); // result-code nibble 6
    assert_eq!(b.read_header(), Err(DnsError::MalformedResultCode));
    assert_eq!(b.pos, 0);
}

#[test]
fn result_code_from_num() {
    assert_eq!(ResultCode::from_num(0), ResultCode::Success);
    assert_eq!(ResultCode::from_num(1), ResultCode::FormError);
    assert_eq!(ResultCode::from_num(2), ResultCode::ServerFail);
    assert_eq!(ResultCode::from_num(3), ResultCode::NonexistantDomain);
    assert_eq!(ResultCode::from_num(4), ResultCode::NotImplemented);
    assert_eq!(ResultCode::from_num(5), ResultCode::Refused);
    assert_eq!(ResultCode::default(), ResultCode::Success);
}

#[test]
fn query_type_codes() {
    assert_eq!(QueryType::A.to_num(), 1);
    assert_eq!(QueryType::NS.to_num(), 2);
    assert_eq!(QueryType::CNAME.to_num(), 5);
    assert_eq!(QueryType::MX.to_num(), 15);
    assert_eq!(QueryType::AAAA.to_num(), 28);
    assert_eq!(QueryType::Unknown(99).to_num(), 99);
    assert_eq!(QueryType::from_num(28), QueryType::AAAA);
    assert_eq!(QueryType::from_num(99), QueryType::Unknown(99));
    assert_eq!(QueryType::from_num(QueryType::MX.to_num()), QueryType::MX);
}

#[test]
fn question_roundtrip() {
    let q = DnsQuestion { name: "example.org".to_string(), qtype: QueryType::AAAA };
    let mut b = BytePacketBuffer::new();
    b.write_question(q.clone()).unwrap();
    b.seek(0);
    assert_eq!(b.read_question(), Ok(q));
}

#[test]
fn record_roundtrips() {
    let records = vec![
        DnsRecord::A { domain: "a.example".to_string(), addr: 0x7F000001, ttl: 3600 },
        DnsRecord::NS { domain: "example".to_string(), host: "ns1.example".to_string(), ttl: 60 },
        DnsRecord::CNAME {
            domain: "www.example".to_string(),
            host: "example".to_string(),
            ttl: 10,
        },
        DnsRecord::MX {
            domain: "example".to_string(),
            priority: 10,
            host: "mail.example".to_string(),
            ttl: 120,
        },
        DnsRecord::AAAA {
            domain: "six.example".to_string(),
            addr: [0x2001, 0xdb8, 0, 0, 0, 0, 0, 1],
            ttl: 30,
        },
    ];
    for rec in records {
        let mut b = BytePacketBuffer::new();
        let n = b.write_record(rec.clone()).unwrap();
        assert_eq!(n, b.pos);
        b.seek(0);
        assert_eq!(b.read_record(), Ok(rec));
    }
}

#[test]
fn unknown_record_skips_exactly_its_declared_length() {
    // name "abc" (5 bytes), type 99, class 1, ttl 7, rdlength 11, junk
    let mut data = vec![3, b'a', b'b', b'c', 0, 0, 99, 0, 1, 0, 0, 0, 7, 0, 11];
    data.extend_from_slice(&[0xAA; 11]);
    let mut b = BytePacketBuffer::from_bytes(&data);
    let rec = b.read_record().unwrap();
    assert_eq!(
        rec,
        DnsRecord::Unknown { domain: "abc".to_string(), qtype: 99, data_len: 11, ttl: 7 }
    );
    assert_eq!(b.pos, 5 + 10 + 11);
}

#[test]
fn unknown_record_write_is_a_noop() {
    let mut b = BytePacketBuffer::new();
    let rec = DnsRecord::Unknown { domain: "x".to_string(), qtype: 99, data_len: 4, ttl: 1 };
    assert_eq!(b.write_record(rec), Ok(0));
    assert_eq!(b.pos, 0);
    assert!(b.buf.iter().all(|&x| x == 0));
}

#[test]
fn packet_roundtrip() {
    let mut h = blank_header();
    h.id = 0x1234;
    h.recursion_desired = true;
    h.response = true;
    h.questions = 1;
    h.answers = 2;
    h.authoritative_entries = 1;
    h.resource_entries = 1;
    let packet = DnsPacket {
        header: h,
        questions: vec![DnsQuestion { name: "www.example.com".to_string(), qtype: QueryType::A }],
        answers: vec![
            DnsRecord::A { domain: "www.example.com".to_string(), addr: 0x5DB8D822, ttl: 300 },
            DnsRecord::CNAME {
                domain: "www.example.com".to_string(),
                host: "example.com".to_string(),
                ttl: 300,
            },
        ],
        authorities: vec![DnsRecord::NS {
            domain: "example.com".to_string(),
            host: "ns.example.com".to_string(),
            ttl: 86400,
        }],
        resources: vec![DnsRecord::AAAA {
            domain: "ns.example.com".to_string(),
            addr: [0x2001, 0xdb8, 0, 0, 0, 0, 0, 0x53],
            ttl: 86400,
        }],
    };
    let mut b = BytePacketBuffer::new();
    b.write_packet(packet.clone()).unwrap();
    b.seek(0);
    let decoded = b.read_packet().unwrap();
    assert_eq!(decoded, packet);
}

#[test]
fn packet_too_large_fails_bounds() {
    let mut h = blank_header();
    h.questions = 20;
    let name = format!("{}.example", "x".repeat(50));
    let questions: Vec<DnsQuestion> = (0..20)
        .map(|_| DnsQuestion { name: name.clone(), qtype: QueryType::A })
        .collect();
    let packet = DnsPacket {
        header: h,
        questions,
        answers: vec![],
        authorities: vec![],
        resources: vec![],
    };
    let mut b = BytePacketBuffer::new();
    assert_eq!(b.write_packet(packet), Err(DnsError::BoundsError));
}

#[test]
fn from_bytes_truncates_and_pads() {
    let data = vec![9u8; 600];
    let b = BytePacketBuffer::from_bytes(&data);
    assert_eq!(b.buf.len(), MAX_BUFFER_SIZE);
    assert!(b.buf.iter().all(|&x| x == 9));
    let b2 = BytePacketBuffer::from_bytes(&[1, 2]);
    assert_eq!(&b2.buf[0..3], &[1, 2, 0]);
}
