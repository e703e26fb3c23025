use dns_resolver::buffer::BytePacketBuffer;
use dns_resolver::error::CodecError;
use dns_resolver::query_type::QueryType;
use dns_resolver::question::DnsQuestion;
use dns_resolver::record::{DnsRecord, Ipv4Address, Ipv6Address};

const EXAMPLE_COM: [u8; 13] =
    [0x07, 0x65, 0x78, 0x61, 0x6d, 0x70, 0x6c, 0x65, 0x03, 0x63, 0x6f, 0x6d, 0x00];

fn read_back(buffer: &mut BytePacketBuffer) -> Result<DnsRecord, CodecError> {
    buffer.seek(0).unwrap();
    DnsRecord::read(buffer)
}

#[test]
fn question_new_holds_its_parts() {
    let q = DnsQuestion::new("example.com".to_string(), QueryType::MX);
    assert_eq!(q.name, "example.com");
    assert_eq!(q.question_type, QueryType::MX);
}

#[test]
fn question_write_bytes() {
    let q = DnsQuestion::new("example.com".to_string(), QueryType::AAAA);
    let mut buffer = BytePacketBuffer::new();
    assert_eq!(q.write(&mut buffer), Ok(()));
    assert_eq!(buffer.pos(), 17);
    assert_eq!(&buffer.buf[0..13], &EXAMPLE_COM);
    assert_eq!(&buffer.buf[13..17], &[0x00, 0x1C, 0x00, 0x01]);
}

#[test]
fn question_round_trip() {
    let q = DnsQuestion::new("Mail.Example.com".to_string(), QueryType::UNKNOWN(4711));
    let mut buffer = BytePacketBuffer::new();
    q.write(&mut buffer).unwrap();
    let end = buffer.pos();
    buffer.seek(0).unwrap();
    let mut decoded = DnsQuestion::new(String::new(), QueryType::UNKNOWN(0));
    assert_eq!(decoded.read(&mut buffer), Ok(()));
    assert_eq!(decoded, DnsQuestion::new("mail.example.com".to_string(), QueryType::UNKNOWN(4711)));
    assert_eq!(buffer.pos(), end);
}

#[test]
fn question_read_appends_name_and_skips_class() {
    let mut buffer = BytePacketBuffer::new();
    buffer.buf[0..7].copy_from_slice(&[1, b'a', 0, 0x00, 0x0F, 0xAB, 0xCD]);
    let mut q = DnsQuestion::new("x-".to_string(), QueryType::A);
    assert_eq!(q.read(&mut buffer), Ok(()));
    assert_eq!(q.name, "x-a");
    assert_eq!(q.question_type, QueryType::MX);
    assert_eq!(buffer.pos(), 7);
}

#[test]
fn question_read_failures() {
    // The type is missing.
    let mut buffer = BytePacketBuffer::new();
    buffer.buf[509..511].copy_from_slice(&[1, b'a']);
    buffer.seek(509).unwrap();
    let mut q = DnsQuestion::new(String::new(), QueryType::NS);
    assert_eq!(q.read(&mut buffer), Err(CodecError::BufferBounds));
    assert_eq!(q.name, "a");
    assert_eq!(q.question_type, QueryType::NS);
    assert_eq!(buffer.pos(), 512);
    // The class is missing.
    let mut buffer = BytePacketBuffer::new();
    buffer.buf[507..512].copy_from_slice(&[1, b'a', 0, 0, 5]);
    buffer.seek(507).unwrap();
    let mut q = DnsQuestion::new(String::new(), QueryType::NS);
    assert_eq!(q.read(&mut buffer), Err(CodecError::BufferBounds));
    assert_eq!(q.question_type, QueryType::CNAME);
    assert_eq!(buffer.pos(), 512);
    // The name is malformed.
    let mut buffer = BytePacketBuffer::new();
    buffer.buf[0..4].copy_from_slice(&[0xC0, 0x02, 0xC0, 0x00]);
    let mut q = DnsQuestion::new(String::new(), QueryType::NS);
    assert_eq!(q.read(&mut buffer), Err(CodecError::JumpLimitExceeded));
    assert_eq!(q.question_type, QueryType::NS);
}

#[test]
fn question_write_failures() {
    let q = DnsQuestion::new("x".repeat(64), QueryType::A);
    let mut buffer = BytePacketBuffer::new();
    assert_eq!(q.write(&mut buffer), Err(CodecError::LabelTooLong));
    assert_eq!(buffer.pos(), 0);
    let q = DnsQuestion::new("example.com".to_string(), QueryType::A);
    buffer.seek(497).unwrap();
    assert_eq!(q.write(&mut buffer), Err(CodecError::BufferBounds));
    assert_eq!(buffer.pos(), 512);
    assert_eq!(&buffer.buf[497..510], &EXAMPLE_COM);
    assert_eq!(&buffer.buf[510..512], &[0x00, 0x01]);
}

#[test]
fn a_record_write() {
    let record = DnsRecord::A {
        domain: "example.com".to_string(),
        addr: Ipv4Address::new(93, 184, 216, 34),
        ttl: 300,
    };
    let mut buffer = BytePacketBuffer::new();
    assert_eq!(record.write(&mut buffer), Ok(27));
    assert_eq!(buffer.pos(), 27);
    assert_eq!(&buffer.buf[0..13], &EXAMPLE_COM);
    assert_eq!(
        &buffer.buf[13..27],
        &[0x00, 0x01, 0x00, 0x01, 0x00, 0x00, 0x01, 0x2C, 0x00, 0x04, 0x5D, 0xB8, 0xD8, 0x22]
    );
    assert_eq!(buffer.buf[27], 0);
}

#[test]
fn a_record_round_trip() {
    let record = DnsRecord::A {
        domain: "example.com".to_string(),
        addr: Ipv4Address::new(93, 184, 216, 34),
        ttl: 0xDEADBEEF,
    };
    let mut buffer = BytePacketBuffer::new();
    record.write(&mut buffer).unwrap();
    let end = buffer.pos();
    assert_eq!(read_back(&mut buffer), Ok(record));
    assert_eq!(buffer.pos(), end);
}

#[test]
fn aaaa_record_round_trip() {
    let record = DnsRecord::AAAA {
        domain: "v6.example.com".to_string(),
        addr: Ipv6Address::new([0x2001, 0x0db8, 0, 1, 0xFFFF, 0x00FF, 0xFF00, 0x0102]),
        ttl: 60,
    };
    let mut buffer = BytePacketBuffer::new();
    assert_eq!(record.write(&mut buffer), Ok(16 + 10 + 16));
    assert_eq!(&buffer.buf[16..18], &[0x00, 0x1C]);
    assert_eq!(&buffer.buf[24..26], &[0x00, 0x10]);
    assert_eq!(
        &buffer.buf[26..42],
        &[0x20, 0x01, 0x0d, 0xb8, 0, 0, 0, 1, 0xFF, 0xFF, 0x00, 0xFF, 0xFF, 0x00, 0x01, 0x02]
    );
    assert_eq!(read_back(&mut buffer), Ok(record));
    assert_eq!(buffer.pos(), 42);
}

#[test]
fn ns_record_round_trip_and_length() {
    let record = DnsRecord::NS {
        domain: "example.com".to_string(),
        host: "a.iana-servers.net".to_string(),
        ttl: 172800,
    };
    let mut buffer = BytePacketBuffer::new();
    assert_eq!(record.write(&mut buffer), Ok(13 + 10 + 20));
    assert_eq!(&buffer.buf[13..15], &[0x00, 0x02]);
    // The data length was written as zero and set once the host had been written.
    assert_eq!(&buffer.buf[21..23], &[0x00, 20]);
    assert_eq!(buffer.buf[23], 1);
    assert_eq!(read_back(&mut buffer), Ok(record));
    assert_eq!(buffer.pos(), 43);
}

#[test]
fn cname_record_round_trip() {
    let record = DnsRecord::CNAME {
        domain: "www.example.com".to_string(),
        host: "example.com".to_string(),
        ttl: 5,
    };
    let mut buffer = BytePacketBuffer::new();
    assert_eq!(record.write(&mut buffer), Ok(17 + 10 + 13));
    assert_eq!(&buffer.buf[17..19], &[0x00, 0x05]);
    assert_eq!(&buffer.buf[25..27], &[0x00, 13]);
    assert_eq!(read_back(&mut buffer), Ok(record));
}

#[test]
fn mx_record_round_trip_and_length() {
    let record = DnsRecord::MX {
        domain: "example.com".to_string(),
        priority: 0x0A0B,
        host: "mail.example.com".to_string(),
        ttl: 3600,
    };
    let mut buffer = BytePacketBuffer::new();
    assert_eq!(record.write(&mut buffer), Ok(13 + 10 + 2 + 18));
    assert_eq!(&buffer.buf[13..15], &[0x00, 0x0F]);
    assert_eq!(&buffer.buf[21..23], &[0x00, 20]);
    assert_eq!(&buffer.buf[23..25], &[0x0A, 0x0B]);
    assert_eq!(read_back(&mut buffer), Ok(record));
    assert_eq!(buffer.pos(), 43);
}

#[test]
fn record_names_come_back_lowercase() {
    let record = DnsRecord::MX {
        domain: "Example.COM".to_string(),
        priority: 1,
        host: "MAIL.example.com".to_string(),
        ttl: 1,
    };
    let mut buffer = BytePacketBuffer::new();
    record.write(&mut buffer).unwrap();
    assert_eq!(
        read_back(&mut buffer),
        Ok(DnsRecord::MX {
            domain: "example.com".to_string(),
            priority: 1,
            host: "mail.example.com".to_string(),
            ttl: 1,
        })
    );
}

#[test]
fn unknown_record_is_passed_over_on_read() {
    let mut buffer = BytePacketBuffer::new();
    buffer.buf[0..3].copy_from_slice(&[1, b'a', 0]);
    buffer.buf[3..13].copy_from_slice(&[0x00, 0x10, 0x00, 0x01, 0, 0, 0, 9, 0x00, 0x05]);
    buffer.buf[13..18].copy_from_slice(&[1, 2, 3, 4, 5]);
    assert_eq!(
        DnsRecord::read(&mut buffer),
        Ok(DnsRecord::UNKNOWN { domain: "a".to_string(), qtype: 16, data_len: 5, ttl: 9 })
    );
    assert_eq!(buffer.pos(), 18);
}

#[test]
fn unknown_record_may_leave_cursor_past_end() {
    let mut buffer = BytePacketBuffer::new();
    buffer.buf[0..3].copy_from_slice(&[1, b'a', 0]);
    buffer.buf[3..13].copy_from_slice(&[0x00, 0x10, 0x00, 0x01, 0, 0, 0, 9, 0xFF, 0xFF]);
    assert!(DnsRecord::read(&mut buffer).is_ok());
    assert_eq!(buffer.pos(), 13 + 65535);
    assert_eq!(buffer.read(), Err(CodecError::BufferBounds));
}

#[test]
fn unknown_record_is_not_written() {
    let record = DnsRecord::UNKNOWN { domain: "a".to_string(), qtype: 16, data_len: 5, ttl: 9 };
    let mut buffer = BytePacketBuffer::new();
    buffer.seek(40).unwrap();
    assert_eq!(record.write(&mut buffer), Ok(0));
    assert_eq!(buffer.pos(), 40);
    assert!(buffer.buf.iter().all(|b| *b == 0));
}

#[test]
fn record_read_with_compressed_names() {
    let mut buffer = BytePacketBuffer::new();
    buffer.buf[0..13].copy_from_slice(&EXAMPLE_COM);
    // At 20: NS record for a pointer to example.com, host "ns" + pointer.
    buffer.buf[20..22].copy_from_slice(&[0xC0, 0x00]);
    buffer.buf[22..32].copy_from_slice(&[0x00, 0x02, 0x00, 0x01, 0, 0, 0, 7, 0x00, 0x05]);
    buffer.buf[32..37].copy_from_slice(&[2, b'n', b's', 0xC0, 0x00]);
    buffer.seek(20).unwrap();
    assert_eq!(
        DnsRecord::read(&mut buffer),
        Ok(DnsRecord::NS {
            domain: "example.com".to_string(),
            host: "ns.example.com".to_string(),
            ttl: 7,
        })
    );
    assert_eq!(buffer.pos(), 37);
}

#[test]
fn record_read_failures() {
    // A malformed name.
    let mut buffer = BytePacketBuffer::new();
    buffer.buf[0..4].copy_from_slice(&[0xC0, 0x02, 0xC0, 0x00]);
    assert_eq!(DnsRecord::read(&mut buffer), Err(CodecError::JumpLimitExceeded));
    // The fixed part runs past the end.
    let mut buffer = BytePacketBuffer::new();
    buffer.seek(503).unwrap();
    assert_eq!(DnsRecord::read(&mut buffer), Err(CodecError::BufferBounds));
    assert_eq!(buffer.pos(), 512);
    // The address runs past the end.
    let mut buffer = BytePacketBuffer::new();
    buffer.buf[499..501].copy_from_slice(&[0x00, 0x01]);
    buffer.seek(498).unwrap();
    assert_eq!(DnsRecord::read(&mut buffer), Err(CodecError::BufferBounds));
    assert_eq!(buffer.pos(), 512);
    buffer.seek(497).unwrap();
    buffer.buf[498..500].copy_from_slice(&[0x00, 0x01]);
    buffer.buf[500] = 0;
    assert!(DnsRecord::read(&mut buffer).is_ok());
    assert_eq!(buffer.pos(), 512);
}

#[test]
fn record_write_failures() {
    let record = DnsRecord::NS {
        domain: "example.com".to_string(),
        host: format!("{}.net", "h".repeat(64)),
        ttl: 1,
    };
    let mut buffer = BytePacketBuffer::new();
    assert_eq!(record.write(&mut buffer), Err(CodecError::LabelTooLong));
    assert_eq!(buffer.pos(), 23);
    // The data length stays as it was first written.
    assert_eq!(&buffer.buf[21..23], &[0, 0]);

    let record = DnsRecord::A {
        domain: "x".repeat(64),
        addr: Ipv4Address::new(1, 2, 3, 4),
        ttl: 1,
    };
    let mut buffer = BytePacketBuffer::new();
    assert_eq!(record.write(&mut buffer), Err(CodecError::LabelTooLong));
    assert_eq!(buffer.pos(), 0);

    let record = DnsRecord::MX {
        domain: "example.com".to_string(),
        priority: 3,
        host: "mail.example.com".to_string(),
        ttl: 1,
    };
    let mut buffer = BytePacketBuffer::new();
    buffer.seek(480).unwrap();
    assert_eq!(record.write(&mut buffer), Err(CodecError::BufferBounds));
    assert_eq!(buffer.pos(), 512);
    assert_eq!(&buffer.buf[501..503], &[0, 0]);
    assert_eq!(&buffer.buf[503..505], &[0, 3]);
}

#[test]
fn ipv4_address_octets() {
    let addr = Ipv4Address::new(198, 41, 0, 4);
    assert_eq!(addr.octets, [198, 41, 0, 4]);
    let addr = Ipv6Address::new([1, 2, 3, 4, 5, 6, 7, 8]);
    assert_eq!(addr.segments, [1, 2, 3, 4, 5, 6, 7, 8]);
}
