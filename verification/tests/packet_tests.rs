use dns_resolver::buffer::BytePacketBuffer;
use dns_resolver::error::CodecError;
use dns_resolver::header::{DnsHeader, ResultCode};
use dns_resolver::packet::DnsPacket;
use dns_resolver::query_type::QueryType;
use dns_resolver::question::DnsQuestion;
use dns_resolver::record::{DnsRecord, Ipv4Address, Ipv6Address};
use dns_resolver::resolver::{
    build_query, build_reply, encode_query, next_step, next_step_after_resolution, read_request,
    root_server, LookupStep,
};

fn a(domain: &str, addr: [u8; 4]) -> DnsRecord {
    DnsRecord::A {
        domain: domain.to_string(),
        addr: Ipv4Address::new(addr[0], addr[1], addr[2], addr[3]),
        ttl: 300,
    }
}

fn ns(domain: &str, host: &str) -> DnsRecord {
    DnsRecord::NS { domain: domain.to_string(), host: host.to_string(), ttl: 300 }
}

fn sample_packet() -> DnsPacket {
    let mut packet = DnsPacket::new();
    packet.header.id = 0xBEEF;
    packet.header.response = true;
    packet.header.recursion_available = true;
    packet.questions.push(DnsQuestion::new("example.com".to_string(), QueryType::A));
    packet.answers.push(a("example.com", [93, 184, 216, 34]));
    packet.answers.push(DnsRecord::AAAA {
        domain: "example.com".to_string(),
        addr: Ipv6Address::new([0x2606, 0x2800, 0x220, 1, 0x248, 0x1893, 0x25c8, 0x1946]),
        ttl: 77,
    });
    packet.resources.push(a("extra.example.com", [10, 0, 0, 1]));
    packet
}

#[test]
fn new_packet_is_empty() {
    let packet = DnsPacket::new();
    assert_eq!(packet.header, DnsHeader::new());
    assert!(packet.questions.is_empty());
    assert!(packet.answers.is_empty());
    assert!(packet.authorities.is_empty());
    assert!(packet.resources.is_empty());
}

#[test]
fn packet_write_sets_counts() {
    let mut packet = sample_packet();
    packet.header.questions = 9;
    packet.header.answers = 9;
    packet.header.authoritative_entries = 9;
    packet.header.resource_entries = 9;
    let mut buffer = BytePacketBuffer::new();
    assert_eq!(packet.write(&mut buffer), Ok(()));
    assert_eq!(packet.header.questions, 1);
    assert_eq!(packet.header.answers, 2);
    assert_eq!(packet.header.authoritative_entries, 0);
    assert_eq!(packet.header.resource_entries, 1);
    assert_eq!(&buffer.buf[4..12], &[0, 1, 0, 2, 0, 0, 0, 1]);
    assert_eq!(buffer.pos(), 12 + 17 + 27 + 39 + 33);
}

#[test]
fn packet_round_trip_with_address_records() {
    let mut packet = sample_packet();
    let mut buffer = BytePacketBuffer::new();
    packet.write(&mut buffer).unwrap();
    let end = buffer.pos();
    buffer.seek(0).unwrap();
    let decoded = DnsPacket::from_buffer(&mut buffer).unwrap();
    assert_eq!(decoded, packet);
    assert_eq!(buffer.pos(), end);
}

#[test]
fn packet_round_trip_folds_case() {
    let mut packet = DnsPacket::new();
    packet.questions.push(DnsQuestion::new("WWW.Example.Com".to_string(), QueryType::A));
    packet.answers.push(a("WWW.Example.Com", [1, 2, 3, 4]));
    let mut buffer = BytePacketBuffer::new();
    packet.write(&mut buffer).unwrap();
    buffer.seek(0).unwrap();
    let decoded = DnsPacket::from_buffer(&mut buffer).unwrap();
    assert_eq!(decoded.header, packet.header);
    assert_eq!(
        decoded.questions,
        vec![DnsQuestion::new("www.example.com".to_string(), QueryType::A)]
    );
    assert_eq!(decoded.answers, vec![a("www.example.com", [1, 2, 3, 4])]);
}

#[test]
fn packet_round_trip_all_sections() {
    let mut packet = DnsPacket::new();
    packet.header.id = 1;
    packet.questions.push(DnsQuestion::new("example.com".to_string(), QueryType::MX));
    packet.answers.push(DnsRecord::MX {
        domain: "example.com".to_string(),
        priority: 10,
        host: "mail.example.com".to_string(),
        ttl: 1,
    });
    packet.answers.push(DnsRecord::CNAME {
        domain: "mail.example.com".to_string(),
        host: "mx.example.net".to_string(),
        ttl: 2,
    });
    packet.authorities.push(ns("example.com", "ns1.example.com"));
    packet.authorities.push(ns("example.com", "ns2.example.com"));
    packet.resources.push(a("ns1.example.com", [192, 0, 2, 1]));
    let mut buffer = BytePacketBuffer::new();
    packet.write(&mut buffer).unwrap();
    buffer.seek(0).unwrap();
    assert_eq!(DnsPacket::from_buffer(&mut buffer), Ok(packet));
}

#[test]
fn packet_sections_are_read_in_order() {
    let mut buffer = BytePacketBuffer::new();
    // Header: one question, no answers, one authority record, one additional record.
    buffer.buf[0..12].copy_from_slice(&[0, 9, 0x80, 0x03, 0, 1, 0, 0, 0, 1, 0, 1]);
    let mut at = 12;
    for chunk in [
        &[1u8, b'q', 0, 0, 1, 0, 1][..],
        &[1, b'n', 0, 0, 2, 0, 1, 0, 0, 0, 1, 0, 3, 1, b'h', 0][..],
        &[1, b'h', 0, 0, 1, 0, 1, 0, 0, 0, 2, 0, 4, 9, 8, 7, 6][..],
    ] {
        buffer.buf[at..at + chunk.len()].copy_from_slice(chunk);
        at += chunk.len();
    }
    let packet = DnsPacket::from_buffer(&mut buffer).unwrap();
    assert_eq!(buffer.pos(), at);
    assert_eq!(packet.header.id, 9);
    assert!(packet.header.response);
    assert_eq!(packet.header.rescode, ResultCode::NXDOMAIN);
    assert_eq!(packet.questions, vec![DnsQuestion::new("q".to_string(), QueryType::A)]);
    assert!(packet.answers.is_empty());
    assert_eq!(
        packet.authorities,
        vec![DnsRecord::NS { domain: "n".to_string(), host: "h".to_string(), ttl: 1 }]
    );
    assert_eq!(
        packet.resources,
        vec![DnsRecord::A { domain: "h".to_string(), addr: Ipv4Address::new(9, 8, 7, 6), ttl: 2 }]
    );
}

#[test]
fn packet_read_failures() {
    let mut buffer = BytePacketBuffer::new();
    buffer.seek(505).unwrap();
    assert_eq!(DnsPacket::from_buffer(&mut buffer), Err(CodecError::BufferBounds));
    assert_eq!(buffer.pos(), 512);

    // More questions counted than the buffer holds.
    let mut buffer = BytePacketBuffer::new();
    buffer.buf[4..6].copy_from_slice(&[0xFF, 0xFF]);
    assert_eq!(DnsPacket::from_buffer(&mut buffer), Err(CodecError::BufferBounds));
    assert_eq!(buffer.pos(), 512);

    // A question with a pointer cycle.
    let mut buffer = BytePacketBuffer::new();
    buffer.buf[4..6].copy_from_slice(&[0, 1]);
    buffer.buf[12..16].copy_from_slice(&[0xC0, 14, 0xC0, 12]);
    assert_eq!(DnsPacket::from_buffer(&mut buffer), Err(CodecError::JumpLimitExceeded));
}

#[test]
fn packet_write_failures() {
    let mut packet = DnsPacket::new();
    for i in 0..30u8 {
        packet.answers.push(a("example.com", [i, i, i, i]));
    }
    let mut buffer = BytePacketBuffer::new();
    assert_eq!(packet.write(&mut buffer), Err(CodecError::BufferBounds));
    assert_eq!(buffer.pos(), 512);
    assert_eq!(packet.header.answers, 30);

    let mut packet = DnsPacket::new();
    packet.questions.push(DnsQuestion::new("fine.example".to_string(), QueryType::A));
    packet.answers.push(a(&"l".repeat(70), [1, 1, 1, 1]));
    packet.answers.push(a("never.written", [1, 1, 1, 1]));
    let mut buffer = BytePacketBuffer::new();
    assert_eq!(packet.write(&mut buffer), Err(CodecError::LabelTooLong));
    assert_eq!(buffer.pos(), 12 + 18);
}

#[test]
fn packet_skips_unknown_records_on_write() {
    let mut packet = DnsPacket::new();
    packet.answers.push(DnsRecord::UNKNOWN {
        domain: "u".to_string(),
        qtype: 99,
        data_len: 3,
        ttl: 1,
    });
    packet.answers.push(a("k", [1, 2, 3, 4]));
    let mut buffer = BytePacketBuffer::new();
    assert_eq!(packet.write(&mut buffer), Ok(()));
    assert_eq!(packet.header.answers, 2);
    assert_eq!(buffer.pos(), 12 + 17);
}

#[test]
fn random_a_record_is_first_a_answer() {
    let mut packet = DnsPacket::new();
    assert_eq!(packet.get_random_a_record(), None);
    packet.answers.push(ns("example.com", "ns.example.com"));
    assert_eq!(packet.get_random_a_record(), None);
    packet.answers.push(a("one", [1, 1, 1, 1]));
    packet.answers.push(a("two", [2, 2, 2, 2]));
    packet.resources.push(a("zero", [0, 0, 0, 0]));
    assert_eq!(packet.get_random_a_record(), Some(Ipv4Address::new(1, 1, 1, 1)));
}

#[test]
fn resolved_ns_needs_suffix_and_glue() {
    let mut packet = DnsPacket::new();
    packet.authorities.push(ns("example.org", "ns.example.org"));
    packet.authorities.push(ns("example.com", "unglued.example.com"));
    packet.authorities.push(ns("com", "a.gtld-servers.net"));
    packet.authorities.push(ns("example.com", "b.iana-servers.net"));
    packet.resources.push(a("ns.example.org", [9, 9, 9, 9]));
    packet.resources.push(a("b.iana-servers.net", [199, 43, 133, 53]));
    packet.resources.push(a("a.gtld-servers.net", [192, 5, 6, 30]));
    packet.resources.push(a("a.gtld-servers.net", [1, 1, 1, 1]));
    assert_eq!(
        packet.get_resolved_ns("www.example.com"),
        Some(Ipv4Address::new(192, 5, 6, 30))
    );
    assert_eq!(
        packet.get_unresolved_ns("www.example.com"),
        Some("unglued.example.com".to_string())
    );
    assert_eq!(packet.get_resolved_ns("www.example.org"), Some(Ipv4Address::new(9, 9, 9, 9)));
    assert_eq!(packet.get_unresolved_ns("www.example.org"), None);
    assert_eq!(packet.get_resolved_ns("www.example.net"), None);
    assert_eq!(packet.get_unresolved_ns("www.example.net"), None);
    // The domain has to end the name; holding it is not enough.
    assert_eq!(packet.get_resolved_ns("example.com.evil"), None);
    assert_eq!(packet.get_resolved_ns("com"), Some(Ipv4Address::new(192, 5, 6, 30)));
}

#[test]
fn resolved_ns_ignores_other_records() {
    let mut packet = DnsPacket::new();
    packet.authorities.push(a("example.com", [1, 2, 3, 4]));
    packet.authorities.push(DnsRecord::CNAME {
        domain: "example.com".to_string(),
        host: "h".to_string(),
        ttl: 1,
    });
    packet.resources.push(a("h", [5, 6, 7, 8]));
    assert_eq!(packet.get_resolved_ns("example.com"), None);
    assert_eq!(packet.get_unresolved_ns("example.com"), None);
    packet.authorities.push(ns("example.com", "h"));
    packet.resources.insert(
        0,
        DnsRecord::AAAA { domain: "h".to_string(), addr: Ipv6Address::new([0; 8]), ttl: 1 },
    );
    assert_eq!(packet.get_resolved_ns("example.com"), Some(Ipv4Address::new(5, 6, 7, 8)));
}

#[test]
fn root_server_address() {
    assert_eq!(root_server(), Ipv4Address::new(198, 41, 0, 4));
}

#[test]
fn query_packet_shape() {
    let packet = build_query("www.example.com", QueryType::A);
    let mut expected = DnsHeader::new();
    expected.id = 6666;
    expected.questions = 1;
    expected.recursion_desired = true;
    assert_eq!(packet.header, expected);
    assert_eq!(
        packet.questions,
        vec![DnsQuestion::new("www.example.com".to_string(), QueryType::A)]
    );
    assert!(packet.answers.is_empty() && packet.authorities.is_empty());
    assert!(packet.resources.is_empty());
}

#[test]
fn query_wire_form() {
    let buffer = encode_query("example.com", QueryType::NS).unwrap();
    assert_eq!(buffer.pos(), 29);
    assert_eq!(&buffer.buf[0..12], &[0x1A, 0x0A, 0x01, 0x00, 0, 1, 0, 0, 0, 0, 0, 0]);
    assert_eq!(buffer.buf[12], 7);
    assert_eq!(&buffer.buf[25..29], &[0, 2, 0, 1]);
    assert_eq!(encode_query(&"x".repeat(64), QueryType::A).err(), Some(CodecError::LabelTooLong));
    let long = vec!["abcdefghijklmnopqrstuvwxyz"; 20].join(".");
    assert_eq!(encode_query(&long, QueryType::A).err(), Some(CodecError::BufferBounds));
}

#[test]
fn resolver_delegation() {
    let mut response = DnsPacket::new();
    response.header.rescode = ResultCode::NOERROR;
    response.authorities.push(ns("example.com", "a.iana-servers.net"));
    response.resources.push(a("a.iana-servers.net", [199, 43, 135, 53]));
    match next_step(&response, "www.example.com") {
        LookupStep::Query { server } => assert_eq!(server, Ipv4Address::new(199, 43, 135, 53)),
        _ => panic!("the resolver did not move on to the name server"),
    }
}

#[test]
fn resolver_nxdomain_short_circuit() {
    let mut response = DnsPacket::new();
    response.header.rescode = ResultCode::NXDOMAIN;
    assert!(matches!(next_step(&response, "www.example.com"), LookupStep::Finished));
    response.authorities.push(ns("example.com", "a.iana-servers.net"));
    response.resources.push(a("a.iana-servers.net", [199, 43, 135, 53]));
    assert!(matches!(next_step(&response, "www.example.com"), LookupStep::Finished));
    response.answers.push(a("www.example.com", [1, 2, 3, 4]));
    assert!(matches!(next_step(&response, "www.example.com"), LookupStep::Finished));
}

#[test]
fn resolver_returns_answers_without_error() {
    let mut response = DnsPacket::new();
    response.answers.push(a("www.example.com", [1, 2, 3, 4]));
    response.authorities.push(ns("example.com", "a.iana-servers.net"));
    response.resources.push(a("a.iana-servers.net", [199, 43, 135, 53]));
    assert!(matches!(next_step(&response, "www.example.com"), LookupStep::Finished));
    // With an error code the answer does not end the lookup.
    response.header.rescode = ResultCode::SERVFAIL;
    assert!(matches!(next_step(&response, "www.example.com"), LookupStep::Query { .. }));
}

#[test]
fn resolver_resolves_unglued_name_server() {
    let mut response = DnsPacket::new();
    response.authorities.push(ns("example.com", "ns.elsewhere.net"));
    match next_step(&response, "www.example.com") {
        LookupStep::Resolve { host } => assert_eq!(host, "ns.elsewhere.net"),
        _ => panic!("the resolver did not ask for the name server's address"),
    }
    let empty = DnsPacket::new();
    assert!(matches!(next_step(&empty, "www.example.com"), LookupStep::Finished));
}

#[test]
fn resolver_after_resolution() {
    let mut resolved = DnsPacket::new();
    assert!(matches!(next_step_after_resolution(&resolved), LookupStep::Finished));
    resolved.answers.push(a("ns.elsewhere.net", [7, 7, 7, 7]));
    match next_step_after_resolution(&resolved) {
        LookupStep::Query { server } => assert_eq!(server, Ipv4Address::new(7, 7, 7, 7)),
        _ => panic!("the resolver did not move on to the resolved server"),
    }
}

#[test]
fn reply_shapes() {
    let question = DnsQuestion::new("example.com".to_string(), QueryType::A);
    let mut found = DnsPacket::new();
    found.header.rescode = ResultCode::REFUSED;
    found.answers.push(a("example.com", [1, 2, 3, 4]));
    found.authorities.push(ns("example.com", "ns.example.com"));
    found.resources.push(a("ns.example.com", [5, 6, 7, 8]));

    let reply = build_reply(77, Some(question.clone()), Some(found.clone()));
    assert_eq!(reply.header.id, 77);
    assert!(reply.header.response && reply.header.recursion_desired);
    assert!(reply.header.recursion_available);
    assert_eq!(reply.header.rescode, ResultCode::REFUSED);
    assert_eq!(reply.questions, vec![question.clone()]);
    assert_eq!(reply.answers, found.answers);
    assert_eq!(reply.authorities, found.authorities);
    assert_eq!(reply.resources, found.resources);

    let reply = build_reply(78, Some(question), None);
    assert_eq!(reply.header.rescode, ResultCode::SERVFAIL);
    assert!(reply.header.response);
    assert!(reply.questions.is_empty() && reply.answers.is_empty());

    let reply = build_reply(79, None, Some(found));
    assert_eq!(reply.header.rescode, ResultCode::FORMERR);
    assert_eq!(reply.header.id, 79);
    assert!(reply.answers.is_empty());
}

#[test]
fn request_gives_identifier_and_last_question() {
    let mut buffer = encode_query("example.com", QueryType::MX).unwrap();
    buffer.seek(0).unwrap();
    let (id, question) = read_request(&mut buffer);
    assert_eq!(id, 6666);
    assert_eq!(question, Some(DnsQuestion::new("example.com".to_string(), QueryType::MX)));

    let mut packet = DnsPacket::new();
    packet.header.id = 5;
    packet.questions.push(DnsQuestion::new("first".to_string(), QueryType::A));
    packet.questions.push(DnsQuestion::new("second".to_string(), QueryType::NS));
    let mut buffer = BytePacketBuffer::new();
    packet.write(&mut buffer).unwrap();
    buffer.seek(0).unwrap();
    assert_eq!(
        read_request(&mut buffer),
        (5, Some(DnsQuestion::new("second".to_string(), QueryType::NS)))
    );
}

#[test]
fn request_without_question_or_malformed() {
    let mut buffer = BytePacketBuffer::new();
    buffer.buf[0..2].copy_from_slice(&[0x12, 0x34]);
    assert_eq!(read_request(&mut buffer), (0x1234, None));

    // One question counted, but its name is a pointer cycle.
    let mut buffer = BytePacketBuffer::new();
    buffer.buf[0..2].copy_from_slice(&[0x0A, 0x0B]);
    buffer.buf[4..6].copy_from_slice(&[0, 1]);
    buffer.buf[12..16].copy_from_slice(&[0xC0, 14, 0xC0, 12]);
    assert_eq!(read_request(&mut buffer), (0x0A0B, None));

    let mut buffer = BytePacketBuffer::new();
    buffer.seek(511).unwrap();
    assert_eq!(read_request(&mut buffer), (0, None));
}
